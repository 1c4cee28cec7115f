//! Planning of the tiled groups of one device.

use std::collections::HashSet;

use vstd::prelude::*;

use crate::lists::reversed;
use crate::names::copy_optional;
use crate::names::OutputName;
use crate::pair;
use crate::pair::tiled_claim_pair;
use crate::pair::tiled_pair_rejection;
use crate::pair::ConnectedTile;
use crate::pair::PairRejection;
use crate::pair::TiledGroupPlan;
use crate::pair::TiledPlanView;
use crate::plan::OutputConfig;
use crate::text;

verus! {

/// The desired tiled topology for one device.
pub struct TiledPlanningResult {
    pub plans: Vec<TiledGroupPlan>,
    /// CRTCs that must not be used alone.
    pub consumed_crtcs: HashSet<u32>,
    /// CRTCs in use that must be disconnected.
    pub force_disconnect: Vec<u32>,
}

/// The contents of a tiled planning result.
pub struct TiledResultView {
    pub plans: Seq<TiledPlanView>,
    pub consumed: Set<u32>,
    pub force: Seq<u32>,
}

/// The contents of a list of plans.
pub open spec fn plan_views(plans: Seq<TiledGroupPlan>) -> Seq<TiledPlanView> {
    Seq::new(plans.len(), |i: int| plans[i]@)
}

impl View for TiledPlanningResult {
    type V = TiledResultView;

    open spec fn view(&self) -> TiledResultView {
        TiledResultView {
            plans: plan_views(self.plans@),
            consumed: self.consumed_crtcs@,
            force: self.force_disconnect@,
        }
    }
}

/// What the configuration holds for the name of an automatically detected group.
#[derive(Debug, Clone, Copy, PartialEq, Eq)]
pub struct ConfigMatch {
    /// Index of the matching output declaration, if there is one.
    pub config: Option<usize>,
    /// Whether the group is turned off.
    pub off: bool,
}

// ---------------------------------------------------------------------------------------------
// Members of explicit groups
// ---------------------------------------------------------------------------------------------

/// The contents of a list of string slices.
pub open spec fn str_texts(list: Seq<&str>) -> Seq<Seq<char>> {
    Seq::new(list.len(), |i: int| list[i]@)
}

/// The first of the first `n` names that is the wanted one, ignoring ASCII case.
pub open spec fn first_named(names: Seq<Seq<char>>, wanted: Seq<char>, n: int) -> Option<int>
    decreases n,
{
    if n <= 0 {
        None
    } else {
        match first_named(names, wanted, n - 1) {
            Some(i) => Some(i),
            None => if text::same_ignoring_case(names[n - 1], wanted) {
                Some(n - 1)
            } else {
                None
            },
        }
    }
}

/// Where the first `k` configured names are connected; those that are not are passed over.
pub open spec fn found_members(
    configured: Seq<Seq<char>>,
    names: Seq<Seq<char>>,
    k: int,
) -> Seq<usize>
    decreases k,
{
    if k <= 0 {
        Seq::empty()
    } else {
        let before = found_members(configured, names, k - 1);
        match first_named(names, configured[k - 1], names.len() as int) {
            Some(i) => before.push(i as usize),
            None => before,
        }
    }
}

/// The names among the first `k` configured ones that are not connected.
pub open spec fn missing_members(
    configured: Seq<Seq<char>>,
    names: Seq<Seq<char>>,
    k: int,
) -> Seq<Seq<char>>
    decreases k,
{
    if k <= 0 {
        Seq::empty()
    } else {
        let before = missing_members(configured, names, k - 1);
        match first_named(names, configured[k - 1], names.len() as int) {
            Some(_) => before,
            None => before.push(configured[k - 1]),
        }
    }
}

proof fn lemma_first_named(names: Seq<Seq<char>>, wanted: Seq<char>, n: int)
    requires
        0 <= n <= names.len(),
    ensures
        match first_named(names, wanted, n) {
            Some(i) => 0 <= i < n && text::same_ignoring_case(names[i], wanted),
            None => forall|i: int|
                0 <= i < n ==> !text::same_ignoring_case(#[trigger] names[i], wanted),
        },
    decreases n,
{
    if n > 0 {
        lemma_first_named(names, wanted, n - 1);
    }
}

proof fn lemma_first_named_stays(names: Seq<Seq<char>>, wanted: Seq<char>, k: int, n: int)
    requires
        0 <= k <= n,
        first_named(names, wanted, k) is Some,
    ensures
        first_named(names, wanted, n) == first_named(names, wanted, k),
    decreases n - k,
{
    if k < n {
        lemma_first_named_stays(names, wanted, k, n - 1);
    }
}

fn position_of(connected_names: &[&str], wanted: &str) -> (position: Option<usize>)
    ensures
        match position {
            Some(i) => first_named(
                str_texts(connected_names@),
                wanted@,
                connected_names@.len() as int,
            ) == Some(i as int) && i < connected_names@.len(),
            None => first_named(
                str_texts(connected_names@),
                wanted@,
                connected_names@.len() as int,
            ) is None,
        },
{
    let ghost names = str_texts(connected_names@);
    for i in 0..connected_names.len()
        invariant
            names == str_texts(connected_names@),
            first_named(names, wanted@, i as int) is None,
    {
        if connected_names[i].eq_ignore_ascii_case(wanted) {
            proof {
                assert(names[i as int] == connected_names@[i as int]@);
                assert(first_named(names, wanted@, i + 1) == Some(i as int));
                lemma_first_named_stays(names, wanted@, i + 1, names.len() as int);
            }
            return Some(i);
        }
        assert(names[i as int] == connected_names@[i as int]@);
    }
    None
}

/// Resolves configured connector names against a connected-connector list.
pub fn resolve_tiled_members<'a>(
    configured: &'a [String],
    connected_names: &[&str],
) -> (resolved: (Vec<usize>, Vec<&'a str>))
    ensures
        resolved.0@ == found_members(
            text::texts(configured@),
            str_texts(connected_names@),
            configured@.len() as int,
        ),
        str_texts(resolved.1@) == missing_members(
            text::texts(configured@),
            str_texts(connected_names@),
            configured@.len() as int,
        ),
        forall|i: int|
            0 <= i < resolved.0@.len() ==> (#[trigger] resolved.0@[i]) < connected_names@.len(),
{
    let mut members: Vec<usize> = Vec::new();
    let mut missing: Vec<&'a str> = Vec::new();
    let ghost wanted = text::texts(configured@);
    let ghost names = str_texts(connected_names@);
    assert(str_texts(missing@) =~= Seq::empty());
    for k in 0..configured.len()
        invariant
            wanted == text::texts(configured@),
            names == str_texts(connected_names@),
            members@ == found_members(wanted, names, k as int),
            str_texts(missing@) == missing_members(wanted, names, k as int),
            forall|i: int|
                0 <= i < members@.len() ==> (#[trigger] members@[i]) < connected_names@.len(),
    {
        let name = configured[k].as_str();
        assert(wanted[k as int] == name@);
        match position_of(connected_names, name) {
            Some(idx) => {
                members.push(idx);
            },
            None => {
                let ghost before = missing@;
                missing.push(name);
                assert(str_texts(missing@) =~= str_texts(before).push(name@));
            },
        }
    }
    (members, missing)
}

/// Resolves configured connector names and claims those that are connected.
pub fn resolve_and_claim_explicit_members<'a>(
    configured: &'a [String],
    connected_names: &[&str],
    claimed: &mut HashSet<usize>,
) -> (resolved: (Vec<usize>, Vec<&'a str>))
    ensures
        resolved.0@ == found_members(
            text::texts(configured@),
            str_texts(connected_names@),
            configured@.len() as int,
        ),
        str_texts(resolved.1@) == missing_members(
            text::texts(configured@),
            str_texts(connected_names@),
            configured@.len() as int,
        ),
        forall|i: int|
            0 <= i < resolved.0@.len() ==> (#[trigger] resolved.0@[i]) < connected_names@.len(),
        final(claimed)@ == old(claimed)@.union(resolved.0@.to_set()),
{
    let (members, missing) = resolve_tiled_members(configured, connected_names);
    let ghost start = claimed@;
    assert(members@.take(0).to_set() =~= Set::empty());
    assert(start.union(Set::empty()) =~= start);
    for i in 0..members.len()
        invariant
            claimed@ == start.union(members@.take(i as int).to_set()),
    {
        claimed.insert(members[i]);
        proof {
            lemma_take_set(members@, i as int);
            assert(claimed@ =~= start.union(members@.take(i + 1).to_set()));
        }
    }
    assert(members@.take(members@.len() as int) =~= members@);
    (members, missing)
}

proof fn lemma_take_set<A>(items: Seq<A>, i: int)
    requires
        0 <= i < items.len(),
    ensures
        items.take(i + 1).to_set() == items.take(i).to_set().insert(items[i]),
{
    let next = items.take(i + 1);
    let prev = items.take(i);
    assert forall|a: A| next.to_set().contains(a) <==> #[trigger] prev.to_set().insert(
        items[i],
    ).contains(a) by {
        if next.contains(a) {
            let k = choose|k: int| 0 <= k < next.len() && next[k] == a;
            if k < i {
                assert(prev[k] == a);
            }
        }
        if prev.contains(a) {
            let k = choose|k: int| 0 <= k < prev.len() && prev[k] == a;
            assert(next[k] == a);
        }
        assert(next[i] == items[i]);
    }
    assert(next.to_set() =~= prev.to_set().insert(items[i]));
}

/// Whether an explicit group keeps its present members from being used alone.
pub fn explicit_group_suppresses_standalone(off: bool, missing_members: usize) -> (suppresses: bool)
    ensures
        suppresses == (off || missing_members != 0),
{
    off || missing_members != 0
}

// ---------------------------------------------------------------------------------------------
// Explicit groups
// ---------------------------------------------------------------------------------------------

/// The state of planning: what has been decided, and which connectors explicit groups claim.
pub struct TiledState {
    pub result: TiledResultView,
    pub claimed: Set<usize>,
}

/// The connector names of the live connectors.
pub open spec fn connector_names(connected: Seq<ConnectedTile>) -> Seq<Seq<char>> {
    Seq::new(connected.len(), |i: int| connected[i].name.connector@)
}

/// The CRTCs of the given connectors.
pub open spec fn crtcs_of(connected: Seq<ConnectedTile>, members: Seq<usize>) -> Seq<u32> {
    Seq::new(members.len(), |i: int| connected[members[i] as int].crtc)
}

/// The result after the given CRTCs are kept from being used alone: those in use are disconnected.
pub open spec fn withheld(
    before: TiledResultView,
    crtcs: Seq<u32>,
    occupied: Set<u32>,
) -> TiledResultView {
    TiledResultView {
        plans: before.plans,
        consumed: before.consumed.union(crtcs.to_set()),
        force: before.force + crtcs.filter(|c: u32| occupied.contains(c)),
    }
}

/// The result after one more plan.
pub open spec fn with_plan(
    before: TiledResultView,
    plan: TiledPlanView,
    config: Option<usize>,
) -> TiledResultView {
    TiledResultView {
        plans: before.plans.push(TiledPlanView { config, ..plan }),
        consumed: before.consumed,
        force: before.force,
    }
}

/// The connectors that an explicit group finds.
pub open spec fn group_members(group: Vec<String>, connected: Seq<ConnectedTile>) -> Seq<usize> {
    found_members(text::texts(group@), connector_names(connected), group@.len() as int)
}

/// Whether an explicit group keeps its present members from being used alone.
pub open spec fn group_withholds(
    output: OutputConfig,
    group: Vec<String>,
    connected: Seq<ConnectedTile>,
) -> bool {
    output.off || missing_members(
        text::texts(group@),
        connector_names(connected),
        group@.len() as int,
    ).len() != 0
}

/// The result after one explicit group.
pub open spec fn with_explicit_group(
    before: TiledResultView,
    output: OutputConfig,
    group: Vec<String>,
    k: int,
    connected: Seq<ConnectedTile>,
    occupied: Set<u32>,
    disable_monitor_names: bool,
) -> TiledResultView {
    let members = group_members(group, connected);
    if group_withholds(output, group, connected) {
        withheld(before, crtcs_of(connected, members), occupied)
    } else if members.len() != 2 {
        before
    } else {
        match pair::pair_plan(
            connected[members[0] as int],
            connected[members[1] as int],
            false,
            disable_monitor_names,
        ) {
            Some(plan) => with_plan(before, plan, Some(k as usize)),
            None => before,
        }
    }
}

/// The state after the first `k` output declarations.
pub open spec fn explicit_state(
    outputs: Seq<OutputConfig>,
    connected: Seq<ConnectedTile>,
    occupied: Set<u32>,
    disable_monitor_names: bool,
    k: int,
) -> TiledState
    decreases k,
{
    if k <= 0 {
        TiledState {
            result: TiledResultView {
                plans: Seq::empty(),
                consumed: Set::empty(),
                force: Seq::empty(),
            },
            claimed: Set::empty(),
        }
    } else {
        let before = explicit_state(outputs, connected, occupied, disable_monitor_names, k - 1);
        match outputs[k - 1].tiled_group {
            None => before,
            Some(group) => TiledState {
                result: with_explicit_group(
                    before.result,
                    outputs[k - 1],
                    group,
                    k - 1,
                    connected,
                    occupied,
                    disable_monitor_names,
                ),
                claimed: before.claimed.union(group_members(group, connected).to_set()),
            },
        }
    }
}

/// Keeps the CRTC from being used alone, and disconnects it where it is in use.
fn withhold(result: &mut TiledPlanningResult, crtc: u32, occupied: &HashSet<u32>)
    ensures
        final(result)@ == withheld(old(result)@, seq![crtc], occupied@),
{
    let ghost start = result@;
    result.consumed_crtcs.insert(crtc);
    if occupied.contains(&crtc) {
        result.force_disconnect.push(crtc);
    }
    proof {
        reveal(Seq::filter);
        let pred = |c: u32| occupied@.contains(c);
        let one = seq![crtc];
        assert(one.drop_last() =~= Seq::empty());
        assert(one.drop_last().filter(pred) =~= Seq::empty());
        assert(one.filter(pred) =~= (if occupied@.contains(crtc) {
            one
        } else {
            Seq::empty()
        }));
        let expected = withheld(start, one, occupied@);
        assert(one.to_set() =~= set![crtc]) by {
            assert(one[0] == crtc);
        }
        assert(result@.consumed =~= expected.consumed);
        assert(result@.force =~= expected.force);
        assert(result@.plans =~= expected.plans);
    }
}

proof fn lemma_withheld_next(
    before: TiledResultView,
    crtcs: Seq<u32>,
    occupied: Set<u32>,
    i: int,
)
    requires
        0 <= i < crtcs.len(),
    ensures
        withheld(withheld(before, crtcs.take(i), occupied), seq![crtcs[i]], occupied) == withheld(
            before,
            crtcs.take(i + 1),
            occupied,
        ),
{
    let pred = |c: u32| occupied.contains(c);
    let one = seq![crtcs[i]];
    lemma_take_set(crtcs, i);
    assert(one.to_set() =~= set![crtcs[i]]) by {
        assert(one[0] == crtcs[i]);
    }
    assert(crtcs.take(i + 1) =~= crtcs.take(i) + one);
    Seq::filter_distributes_over_add(crtcs.take(i), one, pred);
    let left = withheld(withheld(before, crtcs.take(i), occupied), one, occupied);
    let right = withheld(before, crtcs.take(i + 1), occupied);
    assert(left.consumed =~= right.consumed);
    assert(left.force =~= right.force);
}

proof fn lemma_withheld_none(before: TiledResultView, occupied: Set<u32>)
    ensures
        withheld(before, Seq::empty(), occupied) == before,
{
    reveal(Seq::filter);
    let none = Seq::<u32>::empty();
    assert(none.to_set() =~= Set::empty());
    assert(before.consumed.union(none.to_set()) =~= before.consumed);
    assert(before.force + none.filter(|c: u32| occupied.contains(c)) =~= before.force);
}

/// The connector names of the live connectors.
fn collect_names(connected: &[ConnectedTile]) -> (names: Vec<&str>)
    ensures
        str_texts(names@) == connector_names(connected@),
        names@.len() == connected@.len(),
{
    let mut names: Vec<&str> = Vec::new();
    for i in 0..connected.len()
        invariant
            names@.len() == i,
            forall|k: int|
                0 <= k < i ==> (#[trigger] names@[k])@ == connected@[k].name.connector@,
    {
        names.push(connected[i].name.connector.as_str());
    }
    assert(str_texts(names@) =~= connector_names(connected@));
    names
}

/// Decides on the explicit groups, and collects the connectors that they claim.
fn plan_explicit_groups(
    outputs: &[OutputConfig],
    connected: &[ConnectedTile],
    occupied: &HashSet<u32>,
    disable_monitor_names: bool,
) -> (planned: (TiledPlanningResult, HashSet<usize>))
    ensures
        explicit_state(
            outputs@,
            connected@,
            occupied@,
            disable_monitor_names,
            outputs@.len() as int,
        ) == (TiledState { result: planned.0@, claimed: planned.1@ }),
{
    let mut result = TiledPlanningResult {
        plans: Vec::new(),
        consumed_crtcs: HashSet::new(),
        force_disconnect: Vec::new(),
    };
    let mut claimed: HashSet<usize> = HashSet::new();
    let connected_names = collect_names(connected);
    assert(result@.plans =~= Seq::empty());
    for k in 0..outputs.len()
        invariant
            connected_names@.len() == connected@.len(),
            str_texts(connected_names@) == connector_names(connected@),
            explicit_state(outputs@, connected@, occupied@, disable_monitor_names, k as int) == (
            TiledState { result: result@, claimed: claimed@ }),
    {
        let ghost before = result@;
        let ghost claimed_before = claimed@;
        let output = &outputs[k];
        if let Some(group) = &output.tiled_group {
            let (members, missing) = resolve_and_claim_explicit_members(
                group.as_slice(),
                connected_names.as_slice(),
                &mut claimed,
            );
            assert(members@ == group_members(*group, connected@));
            if explicit_group_suppresses_standalone(output.off, missing.len()) {
                // Off and incomplete declarations own every present member. This prevents a
                // half-connected explicit panel from appearing standalone while its other link is
                // absent, and forces down a member that was published before the declaration
                // became incomplete during hotplug.
                let ghost crtcs = crtcs_of(connected@, members@);
                proof {
                    assert(crtcs.take(0) =~= Seq::empty());
                    lemma_withheld_none(before, occupied@);
                }
                for i in 0..members.len()
                    invariant
                        forall|j: int|
                            0 <= j < members@.len() ==> (#[trigger] members@[j]) < connected@.len(),
                        crtcs == crtcs_of(connected@, members@),
                        result@ == withheld(before, crtcs.take(i as int), occupied@),
                {
                    withhold(&mut result, connected[members[i]].crtc, occupied);
                    proof {
                        lemma_withheld_next(before, crtcs, occupied@, i as int);
                    }
                }
                assert(crtcs.take(crtcs.len() as int) =~= crtcs);
            } else if members.len() == 2 {
                let a = &connected[members[0]];
                let b = &connected[members[1]];
                match tiled_claim_pair(a, b, false, disable_monitor_names) {
                    Some(plan) => {
                        let mut plan = plan;
                        plan.config = Some(k);
                        result.plans.push(plan);
                        proof {
                            let expected = with_explicit_group(
                                before,
                                *output,
                                *group,
                                k as int,
                                connected@,
                                occupied@,
                                disable_monitor_names,
                            );
                            assert(result@.plans =~= expected.plans);
                        }
                    },
                    None => {},
                }
            }
        }
    }
    (result, claimed)
}

// ---------------------------------------------------------------------------------------------
// Automatically detected groups
// ---------------------------------------------------------------------------------------------

/// Whether a connector may be grouped automatically: no explicit group claims it, it is not turned
/// off, it exposes topology and it has a sink identity.
pub open spec fn eligible(connected: Seq<ConnectedTile>, claimed: Set<usize>, i: int) -> bool {
    &&& !claimed.contains(i as usize)
    &&& !connected[i].configured_off
    &&& connected[i].tile is Some
    &&& connected[i].name.make is Some || connected[i].name.model is Some
        || connected[i].name.serial is Some
}

/// Whether two connectors belong to the same topology group of the same panel.
pub open spec fn same_panel(a: ConnectedTile, b: ConnectedTile) -> bool {
    &&& a.tile matches Some(ta) && b.tile matches Some(tb) && ta.group_id == tb.group_id
    &&& a.identity@ == b.identity@
}

/// The eligible connectors among the first `n` that belong to the panel of connector `i`.
pub open spec fn panel_tiles(
    connected: Seq<ConnectedTile>,
    claimed: Set<usize>,
    i: int,
    n: int,
) -> Seq<usize>
    decreases n,
{
    if n <= 0 {
        Seq::empty()
    } else {
        let before = panel_tiles(connected, claimed, i, n - 1);
        if eligible(connected, claimed, n - 1) && same_panel(connected[i], connected[n - 1]) {
            before.push((n - 1) as usize)
        } else {
            before
        }
    }
}

/// Whether connector `i` is the first of exactly two tiles of its panel.
pub open spec fn starts_pair(connected: Seq<ConnectedTile>, claimed: Set<usize>, i: int) -> bool {
    let tiles = panel_tiles(connected, claimed, i, connected.len() as int);
    eligible(connected, claimed, i) && tiles.len() == 2 && tiles[0] == i
}

/// The plans of the panels whose first tile is among the first `n` connectors.
pub open spec fn auto_plans(
    connected: Seq<ConnectedTile>,
    claimed: Set<usize>,
    disable_monitor_names: bool,
    n: int,
) -> Seq<TiledPlanView>
    decreases n,
{
    if n <= 0 {
        Seq::empty()
    } else {
        let before = auto_plans(connected, claimed, disable_monitor_names, n - 1);
        if starts_pair(connected, claimed, n - 1) {
            let other = panel_tiles(connected, claimed, n - 1, connected.len() as int)[1];
            match pair::pair_plan(
                connected[n - 1],
                connected[other as int],
                true,
                disable_monitor_names,
            ) {
                Some(plan) => before.push(plan),
                None => before,
            }
        } else {
            before
        }
    }
}

/// The plans of every automatically detected panel.
pub open spec fn detected_plans(
    outputs: Seq<OutputConfig>,
    connected: Seq<ConnectedTile>,
    disable_monitor_names: bool,
) -> Seq<TiledPlanView> {
    auto_plans(
        connected,
        claimed_tiles(outputs, connected, outputs.len() as int),
        disable_monitor_names,
        connected.len() as int,
    )
}

/// The connectors that the explicit groups among the first `k` declarations claim.
pub open spec fn claimed_tiles(
    outputs: Seq<OutputConfig>,
    connected: Seq<ConnectedTile>,
    k: int,
) -> Set<usize>
    decreases k,
{
    if k <= 0 {
        Set::empty()
    } else {
        let before = claimed_tiles(outputs, connected, k - 1);
        match outputs[k - 1].tiled_group {
            None => before,
            Some(group) => before.union(group_members(group, connected).to_set()),
        }
    }
}

/// The CRTCs of a plan.
pub open spec fn plan_crtcs(plan: TiledPlanView) -> Seq<u32> {
    seq![plan.members[0].crtc, plan.members[1].crtc]
}

/// The result after the first `k` detected plans: a plan that the configuration turns off only
/// withholds its CRTCs.
pub open spec fn with_detected(
    before: TiledResultView,
    detected: Seq<TiledPlanView>,
    found: Seq<ConfigMatch>,
    occupied: Set<u32>,
    k: int,
) -> TiledResultView
    decreases k,
{
    if k <= 0 {
        before
    } else {
        let rest = with_detected(before, detected, found, occupied, k - 1);
        if found[k - 1].off {
            withheld(rest, plan_crtcs(detected[k - 1]), occupied)
        } else {
            with_plan(rest, detected[k - 1], found[k - 1].config)
        }
    }
}

/// The tiled groups of a device.
pub open spec fn tiled_groups(
    outputs: Seq<OutputConfig>,
    connected: Seq<ConnectedTile>,
    occupied: Set<u32>,
    auto: bool,
    disable_monitor_names: bool,
    found: Seq<ConfigMatch>,
) -> TiledResultView {
    let explicit = explicit_state(
        outputs,
        connected,
        occupied,
        disable_monitor_names,
        outputs.len() as int,
    ).result;
    if auto {
        with_detected(
            explicit,
            detected_plans(outputs, connected, disable_monitor_names),
            found,
            occupied,
            detected_plans(outputs, connected, disable_monitor_names).len() as int,
        )
    } else {
        explicit
    }
}

proof fn lemma_claimed_tiles(
    outputs: Seq<OutputConfig>,
    connected: Seq<ConnectedTile>,
    occupied: Set<u32>,
    disable_monitor_names: bool,
    k: int,
)
    ensures
        explicit_state(outputs, connected, occupied, disable_monitor_names, k).claimed
            == claimed_tiles(outputs, connected, k),
    decreases k,
{
    if k > 0 {
        lemma_claimed_tiles(outputs, connected, occupied, disable_monitor_names, k - 1);
    }
}

fn is_eligible(connected: &[ConnectedTile], claimed: &HashSet<usize>, i: usize) -> (yes: bool)
    requires
        i < connected@.len(),
    ensures
        yes == eligible(connected@, claimed@, i as int),
{
    let tile = &connected[i];
    !claimed.contains(&i) && !tile.configured_off && tile.tile.is_some() && (
    tile.name.make.is_some() || tile.name.model.is_some() || tile.name.serial.is_some())
}

fn on_same_panel(a: &ConnectedTile, b: &ConnectedTile) -> (same: bool)
    ensures
        same == same_panel(*a, *b),
{
    match (a.tile, b.tile) {
        (Some(ta), Some(tb)) => ta.group_id == tb.group_id && a.identity == b.identity,
        _ => false,
    }
}

proof fn lemma_panel_tiles(
    connected: Seq<ConnectedTile>,
    claimed: Set<usize>,
    i: int,
    n: int,
)
    requires
        0 <= i < connected.len() <= usize::MAX,
        0 <= n <= connected.len(),
    ensures
        forall|k: int|
            0 <= k < panel_tiles(connected, claimed, i, n).len() ==> (#[trigger] panel_tiles(
                connected,
                claimed,
                i,
                n,
            )[k]) < n && eligible(
                connected,
                claimed,
                panel_tiles(connected, claimed, i, n)[k] as int,
            ) && same_panel(
                connected[i],
                connected[panel_tiles(connected, claimed, i, n)[k] as int],
            ),
        forall|a: int, b: int|
            0 <= a < b < panel_tiles(connected, claimed, i, n).len() ==> (#[trigger] panel_tiles(
                connected,
                claimed,
                i,
                n,
            )[a]) < #[trigger] panel_tiles(connected, claimed, i, n)[b],
    decreases n,
{
    if n > 0 {
        lemma_panel_tiles(connected, claimed, i, n - 1);
        let before = panel_tiles(connected, claimed, i, n - 1);
        let tiles = panel_tiles(connected, claimed, i, n);
        assert forall|k: int| 0 <= k < tiles.len() implies (#[trigger] tiles[k]) < n && eligible(
            connected,
            claimed,
            tiles[k] as int,
        ) && same_panel(connected[i], connected[tiles[k] as int]) by {
            if k < before.len() {
                assert(tiles[k] == before[k]);
            }
        }
        assert forall|a: int, b: int| 0 <= a < b < tiles.len() implies (#[trigger] tiles[a])
            < #[trigger] tiles[b] by {
            assert(tiles[a] == before[a]);
            if b < before.len() {
                assert(tiles[b] == before[b]);
            }
        }
    }
}

/// The eligible connectors that belong to the panel of connector `i`.
fn collect_panel(connected: &[ConnectedTile], claimed: &HashSet<usize>, i: usize) -> (tiles: Vec<
    usize,
>)
    requires
        i < connected@.len(),
    ensures
        tiles@ == panel_tiles(connected@, claimed@, i as int, connected@.len() as int),
        forall|k: int| 0 <= k < tiles@.len() ==> (#[trigger] tiles@[k]) < connected@.len(),
{
    let mut tiles: Vec<usize> = Vec::new();
    for n in 0..connected.len()
        invariant
            i < connected@.len(),
            tiles@ == panel_tiles(connected@, claimed@, i as int, n as int),
    {
        if is_eligible(connected, claimed, n) && on_same_panel(&connected[i], &connected[n]) {
            tiles.push(n);
        }
    }
    proof {
        assert(connected.len() == connected@.len());
        lemma_panel_tiles(connected@, claimed@, i as int, connected@.len() as int);
    }
    tiles
}

/// Detects the panels that no explicit group claims.
fn detect_groups(
    connected: &[ConnectedTile],
    claimed: &HashSet<usize>,
    disable_monitor_names: bool,
) -> (plans: Vec<TiledGroupPlan>)
    ensures
        plan_views(plans@) == auto_plans(
            connected@,
            claimed@,
            disable_monitor_names,
            connected@.len() as int,
        ),
{
    let mut plans: Vec<TiledGroupPlan> = Vec::new();
    assert(plan_views(plans@) =~= Seq::empty());
    for i in 0..connected.len()
        invariant
            plan_views(plans@) == auto_plans(
                connected@,
                claimed@,
                disable_monitor_names,
                i as int,
            ),
    {
        if is_eligible(connected, claimed, i) {
            let tiles = collect_panel(connected, claimed, i);
            if tiles.len() == 2 && tiles[0] == i {
                let a = &connected[tiles[0]];
                let b = &connected[tiles[1]];
                match tiled_claim_pair(a, b, true, disable_monitor_names) {
                    Some(plan) => {
                        let ghost before = plan_views(plans@);
                        plans.push(plan);
                        assert(plan_views(plans@) =~= before.push(plan@));
                    },
                    None => {},
                }
            }
        }
    }
    plans
}

/// The connectors that the explicit groups claim.
fn collect_claims(outputs: &[OutputConfig], connected: &[ConnectedTile]) -> (claimed: HashSet<usize>)
    ensures
        claimed@ == claimed_tiles(outputs@, connected@, outputs@.len() as int),
{
    let occupied: HashSet<u32> = HashSet::new();
    let (_, claimed) = plan_explicit_groups(outputs, connected, &occupied, false);
    proof {
        lemma_claimed_tiles(outputs@, connected@, occupied@, false, outputs@.len() as int);
    }
    claimed
}

/// The names of the groups that automatic detection finds, in the order in which
/// [`plan_tiled_groups`] asks what the configuration holds for them.
pub fn detected_group_names(
    outputs: &[OutputConfig],
    connected: &[ConnectedTile],
    disable_monitor_names: bool,
) -> (found: Vec<OutputName>)
    ensures
        found@.len() == detected_plans(outputs@, connected@, disable_monitor_names).len(),
        forall|i: int|
            0 <= i < found@.len() ==> (#[trigger] found@[i])@ == detected_plans(
                outputs@,
                connected@,
                disable_monitor_names,
            )[i].name,
{
    let claimed = collect_claims(outputs, connected);
    let plans = detect_groups(connected, &claimed, disable_monitor_names);
    let ghost expected = detected_plans(outputs@, connected@, disable_monitor_names);
    assert(plan_views(plans@) == expected);
    let mut found: Vec<OutputName> = Vec::new();
    for i in 0..plans.len()
        invariant
            plan_views(plans@) == expected,
            found@.len() == i,
            forall|k: int| 0 <= k < i ==> (#[trigger] found@[k])@ == expected[k].name,
    {
        let name = &plans[i].name;
        assert(expected[i as int] == plans@[i as int]@);
        let copy = OutputName {
            connector: name.connector.clone(),
            make: copy_optional(&name.make),
            model: copy_optional(&name.model),
            serial: copy_optional(&name.serial),
        };
        assert(copy@ == name@);
        found.push(copy);
    }
    found
}

// ---------------------------------------------------------------------------------------------
// Diagnostics
// ---------------------------------------------------------------------------------------------

/// Why an explicit group with a connected member is not planned although it may be on.
#[derive(Debug)]
pub enum TiledProblem {
    /// These configured connectors are not connected to the device.
    MissingMembers { connectors: Vec<String> },
    /// Only two members are supported.
    NotTwoMembers,
    /// The members do not form a pair; why not is known where their planes are.
    NoPair { rejection: Option<PairRejection> },
}

/// The contents of a problem.
pub enum ProblemView {
    MissingMembers { connectors: Seq<Seq<char>> },
    NotTwoMembers,
    NoPair { rejection: Option<PairRejection> },
}

impl View for TiledProblem {
    type V = ProblemView;

    open spec fn view(&self) -> ProblemView {
        match self {
            TiledProblem::MissingMembers { connectors } => ProblemView::MissingMembers {
                connectors: text::texts(connectors@),
            },
            TiledProblem::NotTwoMembers => ProblemView::NotTwoMembers,
            TiledProblem::NoPair { rejection } => ProblemView::NoPair { rejection: *rejection },
        }
    }
}

/// The problem of a declaration.
pub open spec fn problem_of(output: OutputConfig, connected: Seq<ConnectedTile>) -> Option<
    ProblemView,
> {
    match output.tiled_group {
        None => None,
        Some(group) => {
            let members = group_members(group, connected);
            let missing = missing_members(
                text::texts(group@),
                connector_names(connected),
                group@.len() as int,
            );
            if members.len() == 0 {
                None
            } else if missing.len() != 0 {
                Some(ProblemView::MissingMembers { connectors: missing })
            } else if members.len() != 2 {
                Some(ProblemView::NotTwoMembers)
            } else if output.off {
                None
            } else {
                let a = connected[members[0] as int];
                let b = connected[members[1] as int];
                match pair::pair_plan(a, b, false, false) {
                    Some(_) => None,
                    None => Some(
                        ProblemView::NoPair { rejection: pair::pair_rejection(a, b, false) },
                    ),
                }
            }
        },
    }
}

/// Says why the explicit group of a declaration is not planned, for the host to report.
pub fn tiled_group_problem(output: &OutputConfig, connected: &[ConnectedTile]) -> (problem: Option<
    TiledProblem,
>)
    ensures
        match problem {
            Some(p) => problem_of(*output, connected@) == Some(p@),
            None => problem_of(*output, connected@) is None,
        },
{
    let group = match &output.tiled_group {
        Some(group) => group,
        None => {
            return None;
        },
    };
    let names = collect_names(connected);
    let (members, missing) = resolve_tiled_members(group.as_slice(), names.as_slice());
    if members.len() == 0 {
        return None;
    }
    let ghost wanted = str_texts(missing@);
    if missing.len() != 0 {
        let mut connectors: Vec<String> = Vec::new();
        for i in 0..missing.len()
            invariant
                wanted == str_texts(missing@),
                connectors@.len() == i,
                forall|k: int| 0 <= k < i ==> (#[trigger] connectors@[k])@ == wanted[k],
        {
            connectors.push(missing[i].to_owned());
        }
        assert(text::texts(connectors@) =~= wanted);
        return Some(TiledProblem::MissingMembers { connectors });
    }
    if members.len() != 2 {
        return Some(TiledProblem::NotTwoMembers);
    }
    if output.off {
        return None;
    }
    let a = &connected[members[0]];
    let b = &connected[members[1]];
    match tiled_claim_pair(a, b, false, false) {
        Some(_) => None,
        None => Some(TiledProblem::NoPair { rejection: tiled_pair_rejection(a, b, false) }),
    }
}

/// The pairs of tiles of one panel among the first `n` connectors that are rejected, each with the
/// reason.
pub open spec fn rejected_pairs(connected: Seq<ConnectedTile>, claimed: Set<usize>, n: int) -> Seq<
    (usize, usize, PairRejection),
>
    decreases n,
{
    if n <= 0 {
        Seq::empty()
    } else {
        let before = rejected_pairs(connected, claimed, n - 1);
        if starts_pair(connected, claimed, n - 1) {
            let other = panel_tiles(connected, claimed, n - 1, connected.len() as int)[1];
            match pair::pair_rejection(connected[n - 1], connected[other as int], true) {
                Some(rejection) => before.push(((n - 1) as usize, other, rejection)),
                None => before,
            }
        } else {
            before
        }
    }
}

/// The detected pairs of connectors that are rejected, each with the reason, for the host to
/// report.
pub fn detected_rejections(outputs: &[OutputConfig], connected: &[ConnectedTile]) -> (rejections: Vec<
    (usize, usize, PairRejection),
>)
    ensures
        rejections@ == rejected_pairs(
            connected@,
            claimed_tiles(outputs@, connected@, outputs@.len() as int),
            connected@.len() as int,
        ),
{
    let claimed = collect_claims(outputs, connected);
    let mut rejections: Vec<(usize, usize, PairRejection)> = Vec::new();
    for i in 0..connected.len()
        invariant
            rejections@ == rejected_pairs(connected@, claimed@, i as int),
    {
        if is_eligible(connected, &claimed, i) {
            let tiles = collect_panel(connected, &claimed, i);
            if tiles.len() == 2 && tiles[0] == i {
                let other: usize = tiles[1];
                let rejection = tiled_pair_rejection(&connected[i], &connected[other], true);
                if let Some(rejection) = rejection {
                    rejections.push((i, other, rejection));
                }
            }
        }
    }
    rejections
}

/// Plans the tiled groups for one device from host-supplied live connectors.
///
/// The host is responsible only for discovering desktop connectors, reporting which CRTCs are
/// currently occupied, and saying what the configuration holds for each detected group's name.
/// Explicit declarations are authoritative over auto-detection.
pub fn plan_tiled_groups(
    outputs: &[OutputConfig],
    connected: &[ConnectedTile],
    occupied_crtcs: &HashSet<u32>,
    auto: bool,
    disable_monitor_names: bool,
    found: &[ConfigMatch],
) -> (result: TiledPlanningResult)
    requires
        auto ==> found@.len() == detected_plans(outputs@, connected@, disable_monitor_names).len(),
    ensures
        result@ == tiled_groups(
            outputs@,
            connected@,
            occupied_crtcs@,
            auto,
            disable_monitor_names,
            found@,
        ),
{
    let (mut result, claimed) = plan_explicit_groups(
        outputs,
        connected,
        occupied_crtcs,
        disable_monitor_names,
    );
    proof {
        lemma_claimed_tiles(
            outputs@,
            connected@,
            occupied_crtcs@,
            disable_monitor_names,
            outputs@.len() as int,
        );
    }
    if !auto {
        return result;
    }
    let ghost start = result@;
    let plans = detect_groups(connected, &claimed, disable_monitor_names);
    let ghost detected = detected_plans(outputs@, connected@, disable_monitor_names);
    assert(plan_views(plans@) == detected);
    let mut rest = reversed(plans);
    let ghost total = detected.len() as int;
    assert forall|j: int| 0 <= j < total implies (#[trigger] rest@[total - 1 - j])@
        == detected[j] by {
        assert(plan_views(plans@)[j] == plans@[j]@);
    }
    for k in 0..found.len()
        invariant
            found@.len() == total,
            detected.len() == total,
            rest@.len() == total - k,
            forall|j: int| k <= j < total ==> (#[trigger] rest@[total - 1 - j])@ == detected[j],
            forall|j: int| 0 <= j < total ==> (#[trigger] detected[j]).members.len() == 2,
            result@ == with_detected(start, detected, found@, occupied_crtcs@, k as int),
    {
        let ghost before = result@;
        assert(rest@[total - 1 - k]@ == detected[k as int]);
        let next = rest.pop();
        if let Some(plan) = next {
            assert(plan@ == detected[k as int]);
            if found[k].off {
                let first: u32 = plan.members[0].crtc;
                let second: u32 = plan.members[1].crtc;
                withhold(&mut result, first, occupied_crtcs);
                withhold(&mut result, second, occupied_crtcs);
                proof {
                    let crtcs = plan_crtcs(plan@);
                    assert(crtcs.take(0) =~= Seq::empty());
                    lemma_withheld_none(before, occupied_crtcs@);
                    lemma_withheld_next(before, crtcs, occupied_crtcs@, 0);
                    lemma_withheld_next(before, crtcs, occupied_crtcs@, 1);
                    assert(crtcs.take(2) =~= crtcs);
                }
            } else {
                let mut plan = plan;
                plan.config = found[k].config;
                result.plans.push(plan);
                proof {
                    let expected = with_plan(before, detected[k as int], found@[k as int].config);
                    assert(result@.plans =~= expected.plans);
                }
            }
        }
        proof {
            assert forall|j: int| k + 1 <= j < total implies (#[trigger] rest@[total - 1 - j])@
                == detected[j] by {}
        }
    }
    result
}

// ---------------------------------------------------------------------------------------------
// Laws
// ---------------------------------------------------------------------------------------------

/// Every connector that an explicit group finds is claimed, whether the group is on, off, complete
/// or not.
pub proof fn law_explicit_groups_claim_their_members(
    outputs: Seq<OutputConfig>,
    connected: Seq<ConnectedTile>,
    j: int,
    k: int,
    group: Vec<String>,
    member: usize,
)
    requires
        0 <= j < k <= outputs.len(),
        outputs[j].tiled_group == Some(group),
        group_members(group, connected).contains(member),
    ensures
        claimed_tiles(outputs, connected, k).contains(member),
    decreases k,
{
    if j < k - 1 {
        law_explicit_groups_claim_their_members(outputs, connected, j, k - 1, group, member);
    } else {
        assert(group_members(group, connected).to_set().contains(member));
    }
}

/// Whether the plan is that of two tiles of one panel which no explicit group claims and which
/// are not turned off.
pub open spec fn joins_free_tiles(
    plan: TiledPlanView,
    connected: Seq<ConnectedTile>,
    claimed: Set<usize>,
    disable_monitor_names: bool,
    i: int,
    j: int,
) -> bool {
    &&& 0 <= i < j < connected.len()
    &&& eligible(connected, claimed, i)
    &&& eligible(connected, claimed, j)
    &&& same_panel(connected[i], connected[j])
    &&& pair::pair_plan(connected[i], connected[j], true, disable_monitor_names) == Some(plan)
}

/// Automatic detection only joins tiles that no explicit group claims and that are not turned off.
pub proof fn law_detection_respects_explicit_groups(
    connected: Seq<ConnectedTile>,
    claimed: Set<usize>,
    disable_monitor_names: bool,
    n: int,
    k: int,
)
    requires
        0 <= n <= connected.len() <= usize::MAX,
        0 <= k < auto_plans(connected, claimed, disable_monitor_names, n).len(),
    ensures
        exists|i: int, j: int| #[trigger]
            joins_free_tiles(
                auto_plans(connected, claimed, disable_monitor_names, n)[k],
                connected,
                claimed,
                disable_monitor_names,
                i,
                j,
            ),
    decreases n,
{
    let before = auto_plans(connected, claimed, disable_monitor_names, n - 1);
    let plans = auto_plans(connected, claimed, disable_monitor_names, n);
    if k < before.len() {
        law_detection_respects_explicit_groups(
            connected,
            claimed,
            disable_monitor_names,
            n - 1,
            k,
        );
        assert(plans[k] == before[k]);
    } else {
        let i = n - 1;
        let tiles = panel_tiles(connected, claimed, i, connected.len() as int);
        lemma_panel_tiles(connected, claimed, i, connected.len() as int);
        assert(tiles[0] < tiles[1]);
        assert(joins_free_tiles(
            plans[k],
            connected,
            claimed,
            disable_monitor_names,
            i,
            tiles[1] as int,
        ));
    }
}

proof fn lemma_same_tiles(
    connected: Seq<ConnectedTile>,
    claimed: Set<usize>,
    a: int,
    b: int,
    n: int,
)
    requires
        same_panel(connected[a], connected[b]),
    ensures
        panel_tiles(connected, claimed, a, n) == panel_tiles(connected, claimed, b, n),
    decreases n,
{
    if n > 0 {
        lemma_same_tiles(connected, claimed, a, b, n - 1);
    }
}

/// No tile belongs to two detected panels.
pub proof fn law_detected_panels_are_disjoint(
    connected: Seq<ConnectedTile>,
    claimed: Set<usize>,
    a: int,
    b: int,
    tile: usize,
)
    requires
        connected.len() <= usize::MAX,
        0 <= a < connected.len(),
        0 <= b < connected.len(),
        starts_pair(connected, claimed, a),
        starts_pair(connected, claimed, b),
        panel_tiles(connected, claimed, a, connected.len() as int).contains(tile),
        panel_tiles(connected, claimed, b, connected.len() as int).contains(tile),
    ensures
        a == b,
{
    let n = connected.len() as int;
    lemma_panel_tiles(connected, claimed, a, n);
    lemma_panel_tiles(connected, claimed, b, n);
    let ta = panel_tiles(connected, claimed, a, n);
    let tb = panel_tiles(connected, claimed, b, n);
    let x = choose|x: int| 0 <= x < ta.len() && ta[x] == tile;
    let y = choose|y: int| 0 <= y < tb.len() && tb[y] == tile;
    assert(same_panel(connected[a], connected[ta[x] as int]));
    assert(same_panel(connected[b], connected[tb[y] as int]));
    assert(same_panel(connected[a], connected[b]));
    lemma_same_tiles(connected, claimed, a, b, n);
}

/// Whether every CRTC to be disconnected is in use and withheld.
pub open spec fn forces_only_withheld(result: TiledResultView, occupied: Set<u32>) -> bool {
    forall|i: int|
        0 <= i < result.force.len() ==> occupied.contains(#[trigger] result.force[i])
            && result.consumed.contains(result.force[i])
}

proof fn lemma_withheld_forces(before: TiledResultView, crtcs: Seq<u32>, occupied: Set<u32>)
    requires
        forces_only_withheld(before, occupied),
    ensures
        forces_only_withheld(withheld(before, crtcs, occupied), occupied),
        forall|i: int|
            0 <= i < crtcs.len() ==> withheld(before, crtcs, occupied).consumed.contains(
                #[trigger] crtcs[i],
            ),
        forall|i: int|
            0 <= i < crtcs.len() && occupied.contains(#[trigger] crtcs[i]) ==> withheld(
                before,
                crtcs,
                occupied,
            ).force.contains(crtcs[i]),
{
    let pred = |c: u32| occupied.contains(c);
    let kept = crtcs.filter(pred);
    crate::modes::lemma_filter_members(crtcs, pred);
    let after = withheld(before, crtcs, occupied);
    assert forall|i: int| 0 <= i < after.force.len() implies occupied.contains(
        #[trigger] after.force[i],
    ) && after.consumed.contains(after.force[i]) by {
        if i < before.force.len() {
            assert(after.force[i] == before.force[i]);
        } else {
            let c = kept[i - before.force.len()];
            assert(after.force[i] == c);
            assert(kept.contains(c));
            assert(crtcs.contains(c) && pred(c));
            assert(crtcs.to_set().contains(c));
        }
    }
    assert forall|i: int| 0 <= i < crtcs.len() implies after.consumed.contains(
        #[trigger] crtcs[i],
    ) by {
        assert(crtcs.to_set().contains(crtcs[i]));
    }
    assert forall|i: int|
        0 <= i < crtcs.len() && occupied.contains(#[trigger] crtcs[i]) implies after.force.contains(
        crtcs[i],
    ) by {
        assert(crtcs.contains(crtcs[i]) && pred(crtcs[i]));
        assert(kept.contains(crtcs[i]));
        let k = choose|k: int| 0 <= k < kept.len() && kept[k] == crtcs[i];
        assert(after.force[before.force.len() + k] == crtcs[i]);
    }
}

proof fn lemma_explicit_forces(
    outputs: Seq<OutputConfig>,
    connected: Seq<ConnectedTile>,
    occupied: Set<u32>,
    disable_monitor_names: bool,
    k: int,
)
    ensures
        forces_only_withheld(
            explicit_state(outputs, connected, occupied, disable_monitor_names, k).result,
            occupied,
        ),
    decreases k,
{
    if k > 0 {
        lemma_explicit_forces(outputs, connected, occupied, disable_monitor_names, k - 1);
        if let Some(group) = outputs[k - 1].tiled_group {
            let before = explicit_state(
                outputs,
                connected,
                occupied,
                disable_monitor_names,
                k - 1,
            ).result;
            lemma_withheld_forces(
                before,
                crtcs_of(connected, group_members(group, connected)),
                occupied,
            );
        }
    }
}

proof fn lemma_detected_forces(
    before: TiledResultView,
    detected: Seq<TiledPlanView>,
    found: Seq<ConfigMatch>,
    occupied: Set<u32>,
    k: int,
)
    requires
        forces_only_withheld(before, occupied),
    ensures
        forces_only_withheld(with_detected(before, detected, found, occupied, k), occupied),
        before.consumed.subset_of(with_detected(before, detected, found, occupied, k).consumed),
        forall|c: u32|
            before.force.contains(c) ==> #[trigger] with_detected(
                before,
                detected,
                found,
                occupied,
                k,
            ).force.contains(c),
    decreases k,
{
    if k > 0 {
        lemma_detected_forces(before, detected, found, occupied, k - 1);
        let rest = with_detected(before, detected, found, occupied, k - 1);
        lemma_withheld_forces(rest, plan_crtcs(detected[k - 1]), occupied);
        let after = with_detected(before, detected, found, occupied, k);
        assert forall|c: u32| before.force.contains(c) implies #[trigger] after.force.contains(
            c,
        ) by {
            assert(rest.force.contains(c));
            let i = choose|i: int| 0 <= i < rest.force.len() && rest.force[i] == c;
            assert(after.force[i] == c);
        }
    }
}

/// Only CRTCs that are in use are disconnected, and each of them is withheld from being used
/// alone.
pub proof fn law_only_occupied_crtcs_are_disconnected(
    outputs: Seq<OutputConfig>,
    connected: Seq<ConnectedTile>,
    occupied: Set<u32>,
    auto: bool,
    disable_monitor_names: bool,
    found: Seq<ConfigMatch>,
)
    ensures
        forces_only_withheld(
            tiled_groups(outputs, connected, occupied, auto, disable_monitor_names, found),
            occupied,
        ),
{
    lemma_explicit_forces(
        outputs,
        connected,
        occupied,
        disable_monitor_names,
        outputs.len() as int,
    );
    let explicit = explicit_state(
        outputs,
        connected,
        occupied,
        disable_monitor_names,
        outputs.len() as int,
    ).result;
    let detected = detected_plans(outputs, connected, disable_monitor_names);
    lemma_detected_forces(explicit, detected, found, occupied, detected.len() as int);
}

proof fn lemma_explicit_results_are_kept(
    outputs: Seq<OutputConfig>,
    connected: Seq<ConnectedTile>,
    occupied: Set<u32>,
    disable_monitor_names: bool,
    j: int,
    k: int,
    crtc: u32,
)
    requires
        0 <= j <= k,
    ensures
        ({
            let early = explicit_state(
                outputs,
                connected,
                occupied,
                disable_monitor_names,
                j,
            ).result;
            let late = explicit_state(
                outputs,
                connected,
                occupied,
                disable_monitor_names,
                k,
            ).result;
            &&& early.consumed.contains(crtc) ==> late.consumed.contains(crtc)
            &&& early.force.contains(crtc) ==> late.force.contains(crtc)
        }),
    decreases k - j,
{
    if j < k {
        lemma_explicit_results_are_kept(
            outputs,
            connected,
            occupied,
            disable_monitor_names,
            j,
            k - 1,
            crtc,
        );
        let before = explicit_state(
            outputs,
            connected,
            occupied,
            disable_monitor_names,
            k - 1,
        ).result;
        let after = explicit_state(
            outputs,
            connected,
            occupied,
            disable_monitor_names,
            k,
        ).result;
        if before.force.contains(crtc) {
            let i = choose|i: int| 0 <= i < before.force.len() && before.force[i] == crtc;
            assert(after.force[i] == crtc);
        }
    }
}

/// An explicit group that is off or incomplete withholds every member that is present, and
/// disconnects those that are in use.
pub proof fn law_unusable_explicit_groups_withhold_their_members(
    outputs: Seq<OutputConfig>,
    connected: Seq<ConnectedTile>,
    occupied: Set<u32>,
    auto: bool,
    disable_monitor_names: bool,
    found: Seq<ConfigMatch>,
    j: int,
    group: Vec<String>,
    i: int,
)
    requires
        0 <= j < outputs.len(),
        outputs[j].tiled_group == Some(group),
        group_withholds(outputs[j], group, connected),
        0 <= i < group_members(group, connected).len(),
    ensures
        ({
            let result = tiled_groups(
                outputs,
                connected,
                occupied,
                auto,
                disable_monitor_names,
                found,
            );
            let crtc = connected[group_members(group, connected)[i] as int].crtc;
            &&& result.consumed.contains(crtc)
            &&& occupied.contains(crtc) ==> result.force.contains(crtc)
        }),
{
    let crtcs = crtcs_of(connected, group_members(group, connected));
    let before = explicit_state(outputs, connected, occupied, disable_monitor_names, j).result;
    lemma_explicit_forces(outputs, connected, occupied, disable_monitor_names, j);
    lemma_withheld_forces(before, crtcs, occupied);
    assert(withheld(before, crtcs, occupied).consumed.contains(crtcs[i]));
    lemma_explicit_results_are_kept(
        outputs,
        connected,
        occupied,
        disable_monitor_names,
        j + 1,
        outputs.len() as int,
        crtcs[i],
    );
    lemma_explicit_forces(
        outputs,
        connected,
        occupied,
        disable_monitor_names,
        outputs.len() as int,
    );
    let explicit = explicit_state(
        outputs,
        connected,
        occupied,
        disable_monitor_names,
        outputs.len() as int,
    ).result;
    let detected = detected_plans(outputs, connected, disable_monitor_names);
    lemma_detected_forces(explicit, detected, found, occupied, detected.len() as int);
}

/// A declaration has a problem exactly where its explicit group has a connected member, might be
/// planned and is not.
pub proof fn law_problems_explain_missing_plans(
    before: TiledResultView,
    output: OutputConfig,
    group: Vec<String>,
    k: int,
    connected: Seq<ConnectedTile>,
    occupied: Set<u32>,
    disable_monitor_names: bool,
)
    requires
        output.tiled_group == Some(group),
        !output.off,
        group_members(group, connected).len() > 0,
    ensures
        ({
            let after = with_explicit_group(
                before,
                output,
                group,
                k,
                connected,
                occupied,
                disable_monitor_names,
            );
            problem_of(output, connected) is Some <==> after.plans == before.plans
        }),
{
    let members = group_members(group, connected);
    if !group_withholds(output, group, connected) && members.len() == 2 {
        let a = connected[members[0] as int];
        let b = connected[members[1] as int];
        if let Some(plan) = pair::pair_plan(a, b, false, disable_monitor_names) {
            let after = with_plan(before, plan, Some(k as usize));
            assert(after.plans.len() == before.plans.len() + 1);
        }
    }
}

/// A configured name stands for the first connector of that name, whatever the case of the letters;
/// it is found exactly when there is one, and every configured name is either found or missing.
pub proof fn law_configured_members_are_found_or_missing(
    configured: Seq<Seq<char>>,
    names: Seq<Seq<char>>,
    j: int,
    i: int,
)
    requires
        names.len() <= usize::MAX,
        0 <= j < configured.len(),
    ensures
        ({
            let found = found_members(configured, names, configured.len() as int);
            let missing = missing_members(configured, names, configured.len() as int);
            &&& found.len() + missing.len() == configured.len()
            &&& (0 <= i < names.len() && text::same_ignoring_case(names[i], configured[j])
                && forall|k: int|
                0 <= k < i ==> !text::same_ignoring_case(#[trigger] names[k], configured[j]))
                ==> found.contains(i as usize)
            &&& (forall|k: int|
                0 <= k < names.len() ==> !text::same_ignoring_case(
                    #[trigger] names[k],
                    configured[j],
                )) ==> missing.contains(configured[j])
            &&& 0 <= i < found.len() ==> found[i] < names.len() && exists|c: int|
                0 <= c < configured.len() && text::same_ignoring_case(
                    names[found[i] as int],
                    #[trigger] configured[c],
                )
            &&& 0 <= i < missing.len() ==> configured.contains(missing[i]) && forall|k: int|
                0 <= k < names.len() ==> !text::same_ignoring_case(#[trigger] names[k], missing[i])
        }),
{
    let n = configured.len() as int;
    lemma_found_and_missing(configured, names, n);
    let m = names.len() as int;
    lemma_first_of_name(names, configured[j], m);
    let found = found_members(configured, names, n);
    let missing = missing_members(configured, names, n);
    if 0 <= i < names.len() && text::same_ignoring_case(names[i], configured[j]) && forall|k: int|
        0 <= k < i ==> !text::same_ignoring_case(#[trigger] names[k], configured[j]) {
        match first_named(names, configured[j], m) {
            Some(f) => {
                if f < i {
                    assert(!text::same_ignoring_case(names[f], configured[j]));
                } else if i < f {
                    assert(!text::same_ignoring_case(names[i], configured[j]));
                }
            },
            None => {
                assert(!text::same_ignoring_case(names[i], configured[j]));
            },
        }
        assert(first_named(names, configured[j], m) == Some(i));
        assert(resolved_as(configured, names, j));
    }
    if forall|k: int|
        0 <= k < names.len() ==> !text::same_ignoring_case(#[trigger] names[k], configured[j]) {
        if let Some(f) = first_named(names, configured[j], m) {
            assert(text::same_ignoring_case(names[f], configured[j]));
        }
        assert(resolved_as(configured, names, j));
    }
    if 0 <= i < found.len() {
        let c = choose|c: int|
            0 <= c < n && first_named(names, #[trigger] configured[c], m) == Some(found[i] as int);
        lemma_first_of_name(names, configured[c], m);
        assert(text::same_ignoring_case(names[found[i] as int], configured[c]));
    }
    if 0 <= i < missing.len() {
        let c = choose|c: int|
            0 <= c < n && #[trigger] configured[c] == missing[i] && first_named(
                names,
                configured[c],
                m,
            ) is None;
        lemma_first_of_name(names, configured[c], m);
    }
}

proof fn lemma_first_of_name(names: Seq<Seq<char>>, wanted: Seq<char>, n: int)
    requires
        0 <= n <= names.len(),
    ensures
        match first_named(names, wanted, n) {
            Some(f) => 0 <= f < n && text::same_ignoring_case(names[f], wanted) && forall|k: int|
                0 <= k < f ==> !text::same_ignoring_case(#[trigger] names[k], wanted),
            None => forall|k: int|
                0 <= k < n ==> !text::same_ignoring_case(#[trigger] names[k], wanted),
        },
    decreases n,
{
    if n > 0 {
        lemma_first_of_name(names, wanted, n - 1);
    }
}

spec fn resolved_as(configured: Seq<Seq<char>>, names: Seq<Seq<char>>, j: int) -> bool {
    match first_named(names, configured[j], names.len() as int) {
        Some(f) => found_members(configured, names, configured.len() as int).contains(f as usize),
        None => missing_members(configured, names, configured.len() as int).contains(configured[j]),
    }
}

proof fn lemma_found_and_missing(configured: Seq<Seq<char>>, names: Seq<Seq<char>>, n: int)
    requires
        0 <= n <= configured.len(),
        names.len() <= usize::MAX,
    ensures
        ({
            let found = found_members(configured, names, n);
            let missing = missing_members(configured, names, n);
            let m = names.len() as int;
            &&& found.len() + missing.len() == n
            &&& forall|j: int|
                0 <= j < n ==> (match first_named(names, #[trigger] configured[j], m) {
                    Some(f) => found.contains(f as usize),
                    None => missing.contains(configured[j]),
                })
            &&& n == configured.len() ==> forall|j: int|
                0 <= j < n ==> #[trigger] resolved_as(configured, names, j)
            &&& forall|i: int|
                0 <= i < found.len() ==> exists|c: int|
                    0 <= c < n && first_named(names, #[trigger] configured[c], m) == Some(
                        (#[trigger] found[i]) as int,
                    )
            &&& forall|i: int|
                0 <= i < missing.len() ==> exists|c: int|
                    0 <= c < n && #[trigger] configured[c] == #[trigger] missing[i] && first_named(
                        names,
                        configured[c],
                        m,
                    ) is None
        }),
    decreases n,
{
    let m = names.len() as int;
    let found = found_members(configured, names, n);
    let missing = missing_members(configured, names, n);
    if n > 0 {
        lemma_found_and_missing(configured, names, n - 1);
        lemma_first_of_name(names, configured[n - 1], m);
        let f0 = found_members(configured, names, n - 1);
        let m0 = missing_members(configured, names, n - 1);
        assert forall|j: int| 0 <= j < n implies (match first_named(
            names,
            #[trigger] configured[j],
            m,
        ) {
            Some(f) => found.contains(f as usize),
            None => missing.contains(configured[j]),
        }) by {
            if j < n - 1 {
                match first_named(names, configured[j], m) {
                    Some(f) => {
                        let x = choose|x: int| 0 <= x < f0.len() && f0[x] == f as usize;
                        assert(found[x] == f as usize);
                    },
                    None => {
                        let x = choose|x: int| 0 <= x < m0.len() && m0[x] == configured[j];
                        assert(missing[x] == configured[j]);
                    },
                }
            } else {
                match first_named(names, configured[j], m) {
                    Some(f) => {
                        assert(found[f0.len() as int] == f as usize);
                    },
                    None => {
                        assert(missing[m0.len() as int] == configured[j]);
                    },
                }
            }
        }
        assert forall|i: int| 0 <= i < found.len() implies exists|c: int|
            0 <= c < n && first_named(names, #[trigger] configured[c], m) == Some(
                (#[trigger] found[i]) as int,
            ) by {
            if i < f0.len() {
                assert(found[i] == f0[i]);
                let c = choose|c: int|
                    0 <= c < n - 1 && first_named(names, #[trigger] configured[c], m) == Some(
                        f0[i] as int,
                    );
                assert(first_named(names, configured[c], m) == Some(found[i] as int));
            } else {
                assert(first_named(names, configured[n - 1], m) == Some(found[i] as int));
            }
        }
        assert forall|i: int| 0 <= i < missing.len() implies exists|c: int|
            0 <= c < n && #[trigger] configured[c] == #[trigger] missing[i] && first_named(
                names,
                configured[c],
                m,
            ) is None by {
            if i < m0.len() {
                assert(missing[i] == m0[i]);
                let c = choose|c: int|
                    0 <= c < n - 1 && #[trigger] configured[c] == m0[i] && first_named(
                        names,
                        configured[c],
                        m,
                    ) is None;
                assert(configured[c] == missing[i]);
            } else {
                assert(configured[n - 1] == missing[i]);
            }
        }
    }
    if n == configured.len() {
        assert forall|j: int| 0 <= j < n implies #[trigger] resolved_as(configured, names, j) by {
            assert(configured[j] == configured[j]);
        }
    }
}

/// An explicit group of two connected tiles that is not off and whose tiles can be paired is
/// planned, as the declaration that it is; detection adds to what was planned and takes nothing
/// away.
pub proof fn law_usable_explicit_groups_are_planned(
    outputs: Seq<OutputConfig>,
    connected: Seq<ConnectedTile>,
    occupied: Set<u32>,
    auto: bool,
    disable_monitor_names: bool,
    found: Seq<ConfigMatch>,
    j: int,
    group: Vec<String>,
    plan: TiledPlanView,
)
    requires
        0 <= j < outputs.len(),
        outputs[j].tiled_group == Some(group),
        !outputs[j].off,
        missing_members(
            text::texts(group@),
            connector_names(connected),
            group@.len() as int,
        ).len() == 0,
        group_members(group, connected).len() == 2,
        pair::pair_plan(
            connected[group_members(group, connected)[0] as int],
            connected[group_members(group, connected)[1] as int],
            false,
            disable_monitor_names,
        ) == Some(plan),
    ensures
        tiled_groups(
            outputs,
            connected,
            occupied,
            auto,
            disable_monitor_names,
            found,
        ).plans.contains((TiledPlanView { config: Some(j as usize), ..plan })),
{
    let n = outputs.len() as int;
    let wanted = TiledPlanView { config: Some(j as usize), ..plan };
    let at = explicit_state(outputs, connected, occupied, disable_monitor_names, j + 1);
    assert(at.result.plans.last() == wanted);
    assert(at.result.plans[at.result.plans.len() - 1] == wanted);
    lemma_explicit_plans_stay(outputs, connected, occupied, disable_monitor_names, j + 1, n, wanted);
    if auto {
        let explicit = explicit_state(
            outputs,
            connected,
            occupied,
            disable_monitor_names,
            n,
        ).result;
        let detected = detected_plans(outputs, connected, disable_monitor_names);
        lemma_detection_keeps_plans(
            explicit,
            detected,
            found,
            occupied,
            detected.len() as int,
            wanted,
        );
    }
}

proof fn lemma_explicit_plans_stay(
    outputs: Seq<OutputConfig>,
    connected: Seq<ConnectedTile>,
    occupied: Set<u32>,
    disable_monitor_names: bool,
    k: int,
    n: int,
    plan: TiledPlanView,
)
    requires
        0 <= k <= n <= outputs.len(),
        explicit_state(
            outputs,
            connected,
            occupied,
            disable_monitor_names,
            k,
        ).result.plans.contains(plan),
    ensures
        explicit_state(
            outputs,
            connected,
            occupied,
            disable_monitor_names,
            n,
        ).result.plans.contains(plan),
    decreases n - k,
{
    if k < n {
        lemma_explicit_plans_stay(
            outputs,
            connected,
            occupied,
            disable_monitor_names,
            k,
            n - 1,
            plan,
        );
        let before = explicit_state(
            outputs,
            connected,
            occupied,
            disable_monitor_names,
            n - 1,
        ).result.plans;
        let after = explicit_state(
            outputs,
            connected,
            occupied,
            disable_monitor_names,
            n,
        ).result.plans;
        let i = choose|i: int| 0 <= i < before.len() && before[i] == plan;
        assert(after[i] == plan);
    }
}

proof fn lemma_detection_keeps_plans(
    before: TiledResultView,
    detected: Seq<TiledPlanView>,
    found: Seq<ConfigMatch>,
    occupied: Set<u32>,
    k: int,
    plan: TiledPlanView,
)
    requires
        before.plans.contains(plan),
    ensures
        with_detected(before, detected, found, occupied, k).plans.contains(plan),
    decreases k,
{
    if k > 0 {
        lemma_detection_keeps_plans(before, detected, found, occupied, k - 1, plan);
        let rest = with_detected(before, detected, found, occupied, k - 1).plans;
        let after = with_detected(before, detected, found, occupied, k).plans;
        let i = choose|i: int| 0 <= i < rest.len() && rest[i] == plan;
        assert(after[i] == plan);
    }
}

/// A detected pair is planned under the configuration that was found for it, unless that turns it
/// off: its CRTCs are then withheld, and those in use are disconnected.
pub proof fn law_detected_pairs_follow_their_configuration(
    before: TiledResultView,
    detected: Seq<TiledPlanView>,
    found: Seq<ConfigMatch>,
    occupied: Set<u32>,
    k: int,
)
    requires
        0 < k <= detected.len(),
    ensures
        ({
            let rest = with_detected(before, detected, found, occupied, k - 1);
            let after = with_detected(before, detected, found, occupied, k);
            let plan = detected[k - 1];
            &&& !found[k - 1].off ==> {
                &&& after.plans == rest.plans.push(
                    (TiledPlanView { config: found[k - 1].config, ..plan }),
                )
                &&& after.consumed == rest.consumed
                &&& after.force == rest.force
            }
            &&& found[k - 1].off ==> {
                &&& after.plans == rest.plans
                &&& after.consumed.contains(plan.members[0].crtc)
                &&& after.consumed.contains(plan.members[1].crtc)
                &&& occupied.contains(plan.members[0].crtc) ==> after.force.contains(
                    plan.members[0].crtc,
                )
                &&& occupied.contains(plan.members[1].crtc) ==> after.force.contains(
                    plan.members[1].crtc,
                )
                &&& forall|c: u32| #[trigger]
                    after.consumed.contains(c) ==> rest.consumed.contains(c) || c
                        == plan.members[0].crtc || c == plan.members[1].crtc
            }
        }),
{
    let rest = with_detected(before, detected, found, occupied, k - 1);
    let after = with_detected(before, detected, found, occupied, k);
    let plan = detected[k - 1];
    let crtcs = plan_crtcs(plan);
    let kept = crtcs.filter(|c: u32| occupied.contains(c));
    crate::modes::lemma_filter_members(crtcs, |c: u32| occupied.contains(c));
    assert(crtcs[0] == plan.members[0].crtc && crtcs[1] == plan.members[1].crtc);
    assert(crtcs.contains(plan.members[0].crtc));
    assert(crtcs.contains(plan.members[1].crtc));
    if found[k - 1].off {
        assert(after.force == rest.force + kept);
        assert forall|c: u32| kept.contains(c) implies #[trigger] after.force.contains(c) by {
            let x = choose|x: int| 0 <= x < kept.len() && kept[x] == c;
            assert(after.force[rest.force.len() + x] == c);
        }
        assert forall|c: u32| #[trigger] after.consumed.contains(c) implies rest.consumed.contains(c)
            || c == plan.members[0].crtc || c == plan.members[1].crtc by {
            if crtcs.contains(c) {
                let x = choose|x: int| 0 <= x < crtcs.len() && crtcs[x] == c;
            }
        }
    }
}

/// A tile takes part in detection exactly when no explicit group claims it, it is not off, the kernel
/// gives its topology, and something is known of the monitor. Two tiles are on one panel exactly when
/// their topologies name one group and their monitors have one identity.
pub proof fn law_detection_looks_at_identified_tiles(
    connected: Seq<ConnectedTile>,
    claimed: Set<usize>,
    i: int,
    a: ConnectedTile,
    b: ConnectedTile,
)
    ensures
        eligible(connected, claimed, i) <==> {
            &&& !claimed.contains(i as usize)
            &&& !connected[i].configured_off
            &&& connected[i].tile is Some
            &&& !(connected[i].name.make is None && connected[i].name.model is None
                && connected[i].name.serial is None)
        },
        same_panel(a, b) <==> a.tile is Some && b.tile is Some && a.tile->0.group_id
            == b.tile->0.group_id && a.identity@ == b.identity@,
{
}

/// Two tiles that take part in detection, are on one panel with no third and can be paired are
/// detected.
pub proof fn law_lone_pairs_are_detected(
    connected: Seq<ConnectedTile>,
    claimed: Set<usize>,
    disable_monitor_names: bool,
    i: int,
    j: int,
    plan: TiledPlanView,
)
    requires
        0 <= i < j < connected.len() <= usize::MAX,
        eligible(connected, claimed, i),
        eligible(connected, claimed, j),
        same_panel(connected[i], connected[j]),
        forall|k: int|
            0 <= k < connected.len() && k != i && k != j && #[trigger] eligible(
                connected,
                claimed,
                k,
            ) ==> !same_panel(connected[i], connected[k]),
        pair::pair_plan(connected[i], connected[j], true, disable_monitor_names) == Some(plan),
    ensures
        auto_plans(
            connected,
            claimed,
            disable_monitor_names,
            connected.len() as int,
        ).contains(plan),
{
    let n = connected.len() as int;
    lemma_panel_of_two(connected, claimed, i, j, n);
    assert(starts_pair(connected, claimed, i));
    let at = auto_plans(connected, claimed, disable_monitor_names, i + 1);
    assert(at[at.len() - 1] == plan);
    lemma_detected_plans_stay(connected, claimed, disable_monitor_names, i + 1, n, plan);
}

proof fn lemma_panel_of_two(
    connected: Seq<ConnectedTile>,
    claimed: Set<usize>,
    i: int,
    j: int,
    n: int,
)
    requires
        0 <= i < j < connected.len() <= usize::MAX,
        0 <= n <= connected.len(),
        eligible(connected, claimed, i),
        eligible(connected, claimed, j),
        same_panel(connected[i], connected[j]),
        forall|k: int|
            0 <= k < connected.len() && k != i && k != j && #[trigger] eligible(
                connected,
                claimed,
                k,
            ) ==> !same_panel(connected[i], connected[k]),
    ensures
        panel_tiles(connected, claimed, i, n) == (if n <= i {
            Seq::<usize>::empty()
        } else if n <= j {
            seq![i as usize]
        } else {
            seq![i as usize, j as usize]
        }),
    decreases n,
{
    if n > 0 {
        lemma_panel_of_two(connected, claimed, i, j, n - 1);
        if n - 1 == i {
            assert(panel_tiles(connected, claimed, i, n) =~= seq![i as usize]);
        } else if n - 1 == j {
            assert(panel_tiles(connected, claimed, i, n) =~= seq![i as usize, j as usize]);
        }
    }
}

proof fn lemma_detected_plans_stay(
    connected: Seq<ConnectedTile>,
    claimed: Set<usize>,
    disable_monitor_names: bool,
    k: int,
    n: int,
    plan: TiledPlanView,
)
    requires
        0 <= k <= n,
        auto_plans(connected, claimed, disable_monitor_names, k).contains(plan),
    ensures
        auto_plans(connected, claimed, disable_monitor_names, n).contains(plan),
    decreases n - k,
{
    if k < n {
        lemma_detected_plans_stay(connected, claimed, disable_monitor_names, k, n - 1, plan);
        let before = auto_plans(connected, claimed, disable_monitor_names, n - 1);
        let after = auto_plans(connected, claimed, disable_monitor_names, n);
        let i = choose|i: int| 0 <= i < before.len() && before[i] == plan;
        assert(after[i] == plan);
    }
}

/// Without detection only declared groups are planned, each under its own declaration.
pub proof fn law_without_detection_only_declared_groups_are_planned(
    outputs: Seq<OutputConfig>,
    connected: Seq<ConnectedTile>,
    occupied: Set<u32>,
    disable_monitor_names: bool,
    found: Seq<ConfigMatch>,
    i: int,
)
    requires
        outputs.len() <= usize::MAX,
        0 <= i < tiled_groups(
            outputs,
            connected,
            occupied,
            false,
            disable_monitor_names,
            found,
        ).plans.len(),
    ensures
        tiled_groups(
            outputs,
            connected,
            occupied,
            false,
            disable_monitor_names,
            found,
        ).plans[i].config matches Some(c) && c < outputs.len() && outputs[c as int].tiled_group
            is Some && !outputs[c as int].off,
{
    lemma_explicit_plans_are_declared(
        outputs,
        connected,
        occupied,
        disable_monitor_names,
        outputs.len() as int,
        i,
    );
}

proof fn lemma_explicit_plans_are_declared(
    outputs: Seq<OutputConfig>,
    connected: Seq<ConnectedTile>,
    occupied: Set<u32>,
    disable_monitor_names: bool,
    k: int,
    i: int,
)
    requires
        0 <= k <= outputs.len() <= usize::MAX,
        0 <= i < explicit_state(
            outputs,
            connected,
            occupied,
            disable_monitor_names,
            k,
        ).result.plans.len(),
    ensures
        explicit_state(
            outputs,
            connected,
            occupied,
            disable_monitor_names,
            k,
        ).result.plans[i].config matches Some(c) && c < k && outputs[c as int].tiled_group is Some
            && !outputs[c as int].off,
    decreases k,
{
    if k > 0 {
        let before = explicit_state(
            outputs,
            connected,
            occupied,
            disable_monitor_names,
            k - 1,
        ).result.plans;
        if i < before.len() {
            lemma_explicit_plans_are_declared(
                outputs,
                connected,
                occupied,
                disable_monitor_names,
                k - 1,
                i,
            );
        }
    }
}

/// A group is withheld exactly when it is off or a configured connector is missing.
pub proof fn law_groups_are_withheld_when_off_or_incomplete(
    output: OutputConfig,
    group: Vec<String>,
    connected: Seq<ConnectedTile>,
)
    ensures
        group_withholds(output, group, connected) <==> output.off || missing_members(
            text::texts(group@),
            Seq::new(connected.len(), |i: int| connected[i].name.connector@),
            group@.len() as int,
        ).len() > 0,
{
}

/// What is wrong with a declared group is said of it: which connectors are missing, that it has not
/// two members, or why its two tiles cannot be paired. Nothing is said of a group without any
/// connected member, and nothing of the pairing of one that is off.
pub proof fn law_problems_name_what_is_wrong(
    output: OutputConfig,
    group: Vec<String>,
    connected: Seq<ConnectedTile>,
)
    requires
        output.tiled_group == Some(group),
    ensures
        ({
            let members = group_members(group, connected);
            let missing = missing_members(
                text::texts(group@),
                connector_names(connected),
                group@.len() as int,
            );
            let problem = problem_of(output, connected);
            &&& members.len() == 0 ==> problem is None
            &&& members.len() > 0 && missing.len() > 0 ==> problem == Some(
                ProblemView::MissingMembers { connectors: missing },
            )
            &&& members.len() > 0 && missing.len() == 0 && members.len() != 2 ==> problem == Some(
                ProblemView::NotTwoMembers,
            )
            &&& members.len() == 2 && missing.len() == 0 && output.off ==> problem is None
            &&& members.len() == 2 && missing.len() == 0 && !output.off ==> {
                let a = connected[members[0] as int];
                let b = connected[members[1] as int];
                &&& problem is None <==> pair::pair_plan(a, b, false, false) is Some
                &&& problem is Some ==> problem == Some(
                    ProblemView::NoPair { rejection: pair::pair_rejection(a, b, false) },
                )
            }
        }),
{
}

/// Every rejected pair is a pair of tiles on one panel that take part in detection, with the reason
/// for which they are not paired.
pub proof fn law_rejected_pairs_are_reported_with_their_reason(
    connected: Seq<ConnectedTile>,
    claimed: Set<usize>,
    n: int,
    k: int,
)
    requires
        0 <= n <= connected.len() <= usize::MAX,
        0 <= k < rejected_pairs(connected, claimed, n).len(),
    ensures
        ({
            let rejected = rejected_pairs(connected, claimed, n)[k];
            let i = rejected.0 as int;
            let j = rejected.1 as int;
            &&& 0 <= i < j < connected.len()
            &&& eligible(connected, claimed, i)
            &&& eligible(connected, claimed, j)
            &&& same_panel(connected[i], connected[j])
            &&& pair::pair_rejection(connected[i], connected[j], true) == Some(rejected.2)
        }),
    decreases n,
{
    let before = rejected_pairs(connected, claimed, n - 1);
    if k < before.len() {
        law_rejected_pairs_are_reported_with_their_reason(connected, claimed, n - 1, k);
    } else {
        let m = connected.len() as int;
        lemma_panel_tiles(connected, claimed, n - 1, m);
        let tiles = panel_tiles(connected, claimed, n - 1, m);
        assert(tiles[0] < tiles[1]);
    }
}

/// A detected pair has no tile of a declared group and no third tile on its panel.
pub proof fn law_detected_pairs_leave_declared_tiles_alone(
    outputs: Seq<OutputConfig>,
    connected: Seq<ConnectedTile>,
    disable_monitor_names: bool,
    k: int,
)
    requires
        connected.len() <= usize::MAX,
        0 <= k < detected_plans(outputs, connected, disable_monitor_names).len(),
    ensures
        exists|i: int, j: int|
            {
                &&& 0 <= i < j < connected.len()
                &&& #[trigger] same_panel(connected[i], connected[j])
                &&& pair::pair_plan(connected[i], connected[j], true, disable_monitor_names) == Some(
                    detected_plans(outputs, connected, disable_monitor_names)[k],
                )
                &&& forall|d: int, group: Vec<String>|
                    0 <= d < outputs.len() && (#[trigger] outputs[d]).tiled_group == Some(group)
                        ==> !(#[trigger] group_members(group, connected)).contains(i as usize)
                        && !group_members(group, connected).contains(j as usize)
                &&& forall|t: int|
                    0 <= t < connected.len() && t != i && t != j && #[trigger] eligible(
                        connected,
                        claimed_tiles(outputs, connected, outputs.len() as int),
                        t,
                    ) ==> !same_panel(connected[i], connected[t])
            },
{
    let claimed = claimed_tiles(outputs, connected, outputs.len() as int);
    let n = connected.len() as int;
    let (i, j) = lemma_detected_pair(connected, claimed, disable_monitor_names, n, k);
    assert forall|d: int, group: Vec<String>|
        0 <= d < outputs.len() && (#[trigger] outputs[d]).tiled_group == Some(group) implies !(
    #[trigger] group_members(group, connected)).contains(i as usize) && !group_members(
        group,
        connected,
    ).contains(j as usize) by {
        if group_members(group, connected).contains(i as usize) {
            law_explicit_groups_claim_their_members(
                outputs,
                connected,
                d,
                outputs.len() as int,
                group,
                i as usize,
            );
        }
        if group_members(group, connected).contains(j as usize) {
            law_explicit_groups_claim_their_members(
                outputs,
                connected,
                d,
                outputs.len() as int,
                group,
                j as usize,
            );
        }
    }
    assert(same_panel(connected[i], connected[j]));
}

proof fn lemma_detected_pair(
    connected: Seq<ConnectedTile>,
    claimed: Set<usize>,
    disable_monitor_names: bool,
    n: int,
    k: int,
) -> (pair: (int, int))
    requires
        0 <= n <= connected.len() <= usize::MAX,
        0 <= k < auto_plans(connected, claimed, disable_monitor_names, n).len(),
    ensures
        0 <= pair.0 < pair.1 < connected.len(),
        eligible(connected, claimed, pair.0),
        eligible(connected, claimed, pair.1),
        same_panel(connected[pair.0], connected[pair.1]),
        pair::pair_plan(connected[pair.0], connected[pair.1], true, disable_monitor_names) == Some(
            auto_plans(connected, claimed, disable_monitor_names, n)[k],
        ),
        forall|t: int|
            0 <= t < connected.len() && t != pair.0 && t != pair.1 && #[trigger] eligible(
                connected,
                claimed,
                t,
            ) ==> !same_panel(connected[pair.0], connected[t]),
    decreases n,
{
    let before = auto_plans(connected, claimed, disable_monitor_names, n - 1);
    if k < before.len() {
        lemma_detected_pair(connected, claimed, disable_monitor_names, n - 1, k)
    } else {
        let m = connected.len() as int;
        let tiles = panel_tiles(connected, claimed, n - 1, m);
        lemma_panel_tiles(connected, claimed, n - 1, m);
        lemma_panel_tiles_complete(connected, claimed, n - 1, m);
        let j = tiles[1] as int;
        assert(tiles[0] < tiles[1]);
        assert forall|t: int|
            0 <= t < connected.len() && t != n - 1 && t != j && #[trigger] eligible(
                connected,
                claimed,
                t,
            ) implies !same_panel(connected[n - 1], connected[t]) by {
            if same_panel(connected[n - 1], connected[t]) {
                assert(tiles.contains(t as usize));
                let x = choose|x: int| 0 <= x < tiles.len() && tiles[x] == t as usize;
                assert(x == 0 || x == 1);
            }
        }
        (n - 1, j)
    }
}

proof fn lemma_panel_tiles_complete(
    connected: Seq<ConnectedTile>,
    claimed: Set<usize>,
    i: int,
    n: int,
)
    requires
        0 <= i < connected.len() <= usize::MAX,
        0 <= n <= connected.len(),
    ensures
        forall|t: int|
            0 <= t < n && #[trigger] eligible(connected, claimed, t) && same_panel(
                connected[i],
                connected[t],
            ) ==> panel_tiles(connected, claimed, i, n).contains(t as usize),
    decreases n,
{
    if n > 0 {
        lemma_panel_tiles_complete(connected, claimed, i, n - 1);
        let before = panel_tiles(connected, claimed, i, n - 1);
        let after = panel_tiles(connected, claimed, i, n);
        assert forall|t: int|
            0 <= t < n && #[trigger] eligible(connected, claimed, t) && same_panel(
                connected[i],
                connected[t],
            ) implies after.contains(t as usize) by {
            if t < n - 1 {
                let x = choose|x: int| 0 <= x < before.len() && before[x] == t as usize;
                assert(after[x] == t as usize);
            } else {
                assert(after[before.len() as int] == t as usize);
            }
        }
    }
}

/// With detection every detected pair is planned under the configuration found for it, or withheld
/// where that turns it off.
pub proof fn law_detected_pairs_are_planned(
    outputs: Seq<OutputConfig>,
    connected: Seq<ConnectedTile>,
    occupied: Set<u32>,
    disable_monitor_names: bool,
    found: Seq<ConfigMatch>,
    k: int,
)
    requires
        0 <= k < detected_plans(outputs, connected, disable_monitor_names).len(),
        found.len() == detected_plans(outputs, connected, disable_monitor_names).len(),
    ensures
        ({
            let plan = detected_plans(outputs, connected, disable_monitor_names)[k];
            let result = tiled_groups(
                outputs,
                connected,
                occupied,
                true,
                disable_monitor_names,
                found,
            );
            &&& !found[k].off ==> result.plans.contains(
                (TiledPlanView { config: found[k].config, ..plan }),
            )
            &&& found[k].off ==> result.consumed.contains(plan.members[0].crtc)
                && result.consumed.contains(plan.members[1].crtc)
        }),
{
    let detected = detected_plans(outputs, connected, disable_monitor_names);
    let explicit = explicit_state(
        outputs,
        connected,
        occupied,
        disable_monitor_names,
        outputs.len() as int,
    ).result;
    let n = detected.len() as int;
    law_detected_pairs_follow_their_configuration(explicit, detected, found, occupied, k + 1);
    let rest = with_detected(explicit, detected, found, occupied, k);
    let at = with_detected(explicit, detected, found, occupied, k + 1);
    if !found[k].off {
        let plan = TiledPlanView { config: found[k].config, ..detected[k] };
        assert(at.plans[rest.plans.len() as int] == plan);
        lemma_later_detection_keeps(explicit, detected, found, occupied, k + 1, n, plan);
    }
    lemma_consumed_stay(explicit, detected, found, occupied, k + 1, n);
}

proof fn lemma_later_detection_keeps(
    before: TiledResultView,
    detected: Seq<TiledPlanView>,
    found: Seq<ConfigMatch>,
    occupied: Set<u32>,
    k: int,
    n: int,
    plan: TiledPlanView,
)
    requires
        0 <= k <= n,
        with_detected(before, detected, found, occupied, k).plans.contains(plan),
    ensures
        with_detected(before, detected, found, occupied, n).plans.contains(plan),
    decreases n - k,
{
    if k < n {
        lemma_later_detection_keeps(before, detected, found, occupied, k, n - 1, plan);
        let rest = with_detected(before, detected, found, occupied, n - 1).plans;
        let after = with_detected(before, detected, found, occupied, n).plans;
        let i = choose|i: int| 0 <= i < rest.len() && rest[i] == plan;
        assert(after[i] == plan);
    }
}

proof fn lemma_consumed_stay(
    before: TiledResultView,
    detected: Seq<TiledPlanView>,
    found: Seq<ConfigMatch>,
    occupied: Set<u32>,
    k: int,
    n: int,
)
    requires
        0 <= k <= n,
    ensures
        with_detected(before, detected, found, occupied, k).consumed.subset_of(
            with_detected(before, detected, found, occupied, n).consumed,
        ),
    decreases n - k,
{
    if k < n {
        lemma_consumed_stay(before, detected, found, occupied, k, n - 1);
    }
}

} // verus!
