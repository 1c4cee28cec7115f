//! Which connected output serves which configured group member.

use std::collections::HashMap;
use std::collections::HashSet;
use std::hash::Hash;

use vstd::prelude::*;

use crate::modes::ConfiguredMode;
use crate::modes::DrmMode;
use crate::names::OutputName;
use crate::refresh::RefreshSync;
use crate::text;

verus! {

/// How a member's image is turned before it is scanned out.
#[derive(Debug, Clone, Copy, PartialEq, Eq, Structural)]
pub enum Transform {
    Normal,
    _90,
    _180,
    _270,
    Flipped,
    Flipped90,
    Flipped180,
    Flipped270,
}

impl Transform {
    /// Whether the transform exchanges width and height.
    pub open spec fn swaps_axes(self) -> bool {
        self is _90 || self is _270 || self is Flipped90 || self is Flipped270
    }
}

/// A mode size after the transform.
pub open spec fn turned(size: (u16, u16), transform: Transform) -> (u16, u16) {
    if transform.swaps_axes() {
        (size.1, size.0)
    } else {
        size
    }
}

/// A mode size after the transform.
pub fn transformed_size(size: (u16, u16), transform: Transform) -> (turned_size: (u16, u16))
    ensures
        turned_size == turned(size, transform),
{
    match transform {
        Transform::_90 | Transform::_270 | Transform::Flipped90 | Transform::Flipped270 => (
            size.1,
            size.0,
        ),
        Transform::Normal | Transform::_180 | Transform::Flipped | Transform::Flipped180 => size,
    }
}

/// Whether the members of a group may be scanned out directly.
#[derive(Debug, Clone, Copy, PartialEq, Eq, Structural)]
pub enum GroupRenderPolicy {
    Auto,
    Composited,
}

/// One member of a configured display group.
#[derive(Debug)]
pub struct GroupMember {
    /// Selector that the member's output answers to.
    pub output: String,
    /// For each connected output, whether its name or identity answers to the selector.
    pub matches: Vec<bool>,
    pub mode: Option<ConfiguredMode>,
    pub transform: Transform,
    /// Position in physical pixels.
    pub position: Option<(i32, i32)>,
}

/// A configured display group.
#[derive(Debug)]
pub struct DisplayGroup {
    pub members: Vec<GroupMember>,
    pub primary: Option<String>,
    pub refresh_sync: RefreshSync,
    pub render_policy: GroupRenderPolicy,
}

/// A connector and the modes that it advertises, in kernel order.
#[derive(Debug, Clone)]
pub struct ConnectorInfo {
    pub handle: u32,
    pub modes: Vec<DrmMode>,
}

/// A connected output of any device.
#[derive(Debug, Clone)]
pub struct ConnectedOutput {
    /// Device number.
    pub node: u64,
    pub connector: ConnectorInfo,
    pub crtc: u32,
    /// Runtime-unique name.
    pub name: OutputName,
    /// Unmodified connector and sink identity, used for stable configuration matching.
    pub identity: OutputName,
}

/// Whether an output answers to a selector, by its runtime name or by its identity. How a name
/// answers is up to the configuration.
pub fn output_matches_selector(name_matches: bool, identity_matches: bool) -> (matches: bool)
    ensures
        matches == (name_matches || identity_matches),
{
    name_matches || identity_matches
}

/// A device and one of its CRTCs as one number.
pub open spec fn spec_member_key(node: u64, crtc: u32) -> u128 {
    (node * 0x1_0000_0000 + crtc) as u128
}

/// A device and one of its CRTCs as one number.
pub fn member_key(node: u64, crtc: u32) -> (key: u128)
    ensures
        key == spec_member_key(node, crtc),
{
    node as u128 * 0x1_0000_0000 + crtc as u128
}

/// Different CRTCs have different keys.
pub proof fn law_member_keys_are_distinct(a_node: u64, a_crtc: u32, b_node: u64, b_crtc: u32)
    ensures
        spec_member_key(a_node, a_crtc) == spec_member_key(b_node, b_crtc) <==> a_node == b_node
            && a_crtc == b_crtc,
{
}

/// The key of a connected output.
pub open spec fn key_of(output: ConnectedOutput) -> u128 {
    spec_member_key(output.node, output.crtc)
}

/// What reconciliation may do with a present member claimed by an explicit declaration.
#[derive(Debug, Clone, Copy, PartialEq, Eq, Structural)]
pub enum GroupMemberClaim {
    /// A complete enabled plan owns the member while it is live or being formed. If formation is
    /// suppressed after a failure, the member may temporarily fall back to an ordinary output.
    Planned,
    /// An off, incomplete, or invalid declaration remains authoritative and suppresses both
    /// automatic grouping and ordinary-output fallback.
    SuppressStandalone,
}

/// What an explicit declaration claims its members for.
pub open spec fn claim_policy(off: bool, plan_succeeded: bool) -> GroupMemberClaim {
    if plan_succeeded && !off {
        GroupMemberClaim::Planned
    } else {
        GroupMemberClaim::SuppressStandalone
    }
}

/// What an explicit declaration claims its members for.
pub fn explicit_claim_policy(off: bool, plan_succeeded: bool) -> (claim: GroupMemberClaim)
    ensures
        claim == claim_policy(off, plan_succeeded),
{
    if plan_succeeded && !off {
        GroupMemberClaim::Planned
    } else {
        GroupMemberClaim::SuppressStandalone
    }
}

/// The claims after the members `present` are claimed too.
pub open spec fn with_claims<K>(
    claims: Map<K, GroupMemberClaim>,
    present: Set<K>,
    policy: GroupMemberClaim,
) -> Map<K, GroupMemberClaim> {
    Map::new(
        |k: K| claims.contains_key(k) || present.contains(k),
        |k: K|
            if present.contains(k) {
                policy
            } else {
                claims[k]
            },
    )
}

/// Claims the present members, unless the declaration conflicts with an earlier group.
pub fn commit_present_claims<K: Eq + Hash>(
    claims: &mut HashMap<K, GroupMemberClaim>,
    present: Vec<K>,
    conflicts_with_prior_group: bool,
    policy: GroupMemberClaim,
)
    requires
        vstd::std_specs::hash::obeys_key_model::<K>(),
    ensures
        final(claims)@ == (if conflicts_with_prior_group {
            old(claims)@
        } else {
            with_claims(old(claims)@, present@.to_set(), policy)
        }),
{
    if conflicts_with_prior_group {
        return ;
    }
    let mut rest = present;
    let ghost start = claims@;
    let ghost all = present@;
    assert(all.skip(all.len() as int) =~= Seq::empty());
    assert(claims@ =~= with_claims(start, Set::empty(), policy));
    assert(all.skip(all.len() as int).to_set() =~= Set::empty());
    while rest.len() > 0
        invariant
            vstd::std_specs::hash::obeys_key_model::<K>(),
            rest@ == all.take(rest@.len() as int),
            rest@.len() <= all.len(),
            claims@ == with_claims(start, all.skip(rest@.len() as int).to_set(), policy),
        decreases rest@.len(),
    {
        let ghost n = rest@.len() as int;
        let last = rest.pop();
        if let Some(key) = last {
            claims.insert(key, policy);
            proof {
                assert(key == all[n - 1]);
                assert(rest@ =~= all.take(n - 1));
                let grown = all.skip(n - 1);
                assert(grown =~= seq![key] + all.skip(n));
                assert(grown.to_set() =~= all.skip(n).to_set().insert(key)) by {
                    assert forall|k: K| #[trigger] grown.to_set().contains(k) implies all.skip(
                        n,
                    ).to_set().insert(key).contains(k) by {
                        let i = choose|i: int| 0 <= i < grown.len() && grown[i] == k;
                        if i > 0 {
                            assert(all.skip(n)[i - 1] == k);
                        }
                    }
                    assert forall|k: K| #[trigger]
                        all.skip(n).to_set().insert(key).contains(k) implies grown.to_set().contains(
                        k,
                    ) by {
                        if k == key {
                            assert(grown[0] == k);
                        } else {
                            let i = choose|i: int| 0 <= i < all.skip(n).len() && all.skip(n)[i] == k;
                            assert(grown[i + 1] == k);
                        }
                    }
                }
                assert(claims@ =~= with_claims(start, grown.to_set(), policy));
            }
        }
    }
    assert(all.skip(0) =~= all);
}

// ---------------------------------------------------------------------------------------------
// Candidates
// ---------------------------------------------------------------------------------------------

#[derive(Debug, Clone, Copy, PartialEq, Eq, Structural)]
pub enum CandidateChoiceError {
    Missing,
    Ambiguous,
}

/// The single candidate that matches exactly, or the only candidate where none does.
pub open spec fn sole_candidate(candidates: Seq<(usize, bool)>) -> Result<
    usize,
    CandidateChoiceError,
> {
    let exact = candidates.filter(|c: (usize, bool)| c.1);
    if exact.len() == 1 {
        Ok(exact[0].0)
    } else if exact.len() > 1 {
        Err(CandidateChoiceError::Ambiguous)
    } else if candidates.len() == 1 {
        Ok(candidates[0].0)
    } else if candidates.len() == 0 {
        Err(CandidateChoiceError::Missing)
    } else {
        Err(CandidateChoiceError::Ambiguous)
    }
}

/// Chooses a unique connector candidate, preferring one exact connector-name match over identity
/// matches.
pub fn choose_candidate(candidates: &[(usize, bool)]) -> (choice: Result<
    usize,
    CandidateChoiceError,
>)
    ensures
        choice == sole_candidate(candidates@),
{
    let mut first: Option<usize> = None;
    let mut count: usize = 0;
    let ghost pred = |c: (usize, bool)| c.1;
    for i in 0..candidates.len()
        invariant
            pred == (|c: (usize, bool)| c.1),
            count == candidates@.take(i as int).filter(pred).len(),
            count <= i,
            count == 0 <==> first is None,
            count > 0 ==> first == Some(candidates@.take(i as int).filter(pred)[0].0),
    {
        proof {
            assert(candidates@.take(i + 1).drop_last() =~= candidates@.take(i as int));
            assert(candidates@.take(i + 1).last() == candidates@[i as int]);
            reveal(Seq::filter);
        }
        if candidates[i].1 {
            if first.is_none() {
                first = Some(candidates[i].0);
            }
            count = count + 1;
        }
    }
    assert(candidates@.take(candidates@.len() as int) =~= candidates@);
    if count > 1 {
        return Err(CandidateChoiceError::Ambiguous);
    }
    if let Some(idx) = first {
        return Ok(idx);
    }
    if candidates.len() == 1 {
        Ok(candidates[0].0)
    } else if candidates.len() == 0 {
        Err(CandidateChoiceError::Missing)
    } else {
        Err(CandidateChoiceError::Ambiguous)
    }
}

/// Whether connected output `i` may still serve the member.
pub open spec fn is_open(
    member: GroupMember,
    connected: Seq<ConnectedOutput>,
    blocked: Set<u128>,
    taken: Seq<usize>,
    i: int,
) -> bool {
    &&& !taken.contains(i as usize)
    &&& member.matches@[i]
    &&& !blocked.contains(key_of(connected[i]))
}

/// Whether the member names the connector of output `i`.
pub open spec fn names_connector(
    member: GroupMember,
    connected: Seq<ConnectedOutput>,
    i: int,
) -> bool {
    text::same_ignoring_case(connected[i].name.connector@, member.output@)
}

/// The open outputs among the first `n`, each with whether the member names its connector.
pub open spec fn open_outputs(
    member: GroupMember,
    connected: Seq<ConnectedOutput>,
    blocked: Set<u128>,
    taken: Seq<usize>,
    n: int,
) -> Seq<(usize, bool)>
    decreases n,
{
    if n <= 0 {
        Seq::empty()
    } else {
        let rest = open_outputs(member, connected, blocked, taken, n - 1);
        if is_open(member, connected, blocked, taken, n - 1) {
            rest.push(((n - 1) as usize, names_connector(member, connected, n - 1)))
        } else {
            rest
        }
    }
}

/// The output that serves the member.
pub open spec fn output_for(
    member: GroupMember,
    connected: Seq<ConnectedOutput>,
    blocked: Set<u128>,
    taken: Seq<usize>,
) -> Result<usize, CandidateChoiceError> {
    sole_candidate(open_outputs(member, connected, blocked, taken, connected.len() as int))
}

/// Whether every member of the group has one match entry per connected output.
pub open spec fn group_matches(group: DisplayGroup, connected: Seq<ConnectedOutput>) -> bool {
    forall|i: int|
        0 <= i < group.members@.len() ==> (#[trigger] group.members@[i]).matches@.len()
            == connected.len()
}

proof fn lemma_open_outputs(
    member: GroupMember,
    connected: Seq<ConnectedOutput>,
    blocked: Set<u128>,
    taken: Seq<usize>,
    n: int,
)
    requires
        0 <= n <= connected.len() <= usize::MAX,
    ensures
        forall|k: int|
            0 <= k < open_outputs(member, connected, blocked, taken, n).len() ==> (
            #[trigger] open_outputs(member, connected, blocked, taken, n)[k]).0 < n && is_open(
                member,
                connected,
                blocked,
                taken,
                open_outputs(member, connected, blocked, taken, n)[k].0 as int,
            ),
    decreases n,
{
    if n > 0 {
        lemma_open_outputs(member, connected, blocked, taken, n - 1);
        let all = open_outputs(member, connected, blocked, taken, n);
        let rest = open_outputs(member, connected, blocked, taken, n - 1);
        assert forall|k: int| 0 <= k < all.len() implies (#[trigger] all[k]).0 < n && is_open(
            member,
            connected,
            blocked,
            taken,
            all[k].0 as int,
        ) by {
            if k < rest.len() {
                assert(all[k] == rest[k]);
            } else {
                assert(all[k].0 == n - 1);
            }
        }
    }
}

/// The output that serves a member is open.
pub proof fn lemma_output_for_is_open(
    member: GroupMember,
    connected: Seq<ConnectedOutput>,
    blocked: Set<u128>,
    taken: Seq<usize>,
)
    requires
        connected.len() <= usize::MAX,
    ensures
        match output_for(member, connected, blocked, taken) {
            Ok(i) => i < connected.len() && is_open(member, connected, blocked, taken, i as int),
            Err(_) => true,
        },
{
    let all = open_outputs(member, connected, blocked, taken, connected.len() as int);
    lemma_open_outputs(member, connected, blocked, taken, connected.len() as int);
    let pred = |c: (usize, bool)| c.1;
    let exact = all.filter(pred);
    if exact.len() == 1 {
        crate::modes::lemma_filter_members(all, pred);
        assert(exact.contains(exact[0]));
        assert(all.contains(exact[0]));
        let k = choose|k: int| 0 <= k < all.len() && all[k] == exact[0];
        assert(all[k].0 == exact[0].0);
    } else if exact.len() == 0 && all.len() == 1 {
        assert(all[0].0 < connected.len());
    }
}

proof fn lemma_open_is_listed(
    member: GroupMember,
    connected: Seq<ConnectedOutput>,
    blocked: Set<u128>,
    taken: Seq<usize>,
    n: int,
    i: int,
)
    requires
        0 <= i < n <= connected.len() <= usize::MAX,
        is_open(member, connected, blocked, taken, i),
    ensures
        open_outputs(member, connected, blocked, taken, n).contains(
            (i as usize, names_connector(member, connected, i)),
        ),
    decreases n,
{
    let all = open_outputs(member, connected, blocked, taken, n);
    let rest = open_outputs(member, connected, blocked, taken, n - 1);
    if i < n - 1 {
        lemma_open_is_listed(member, connected, blocked, taken, n - 1, i);
        let item = (i as usize, names_connector(member, connected, i));
        let k = choose|k: int| 0 <= k < rest.len() && rest[k] == item;
        assert(all[k] == item);
    } else {
        assert(all.last() == all[all.len() - 1]);
    }
}

/// Whether whatever is open under the second restrictions is open under the first.
spec fn narrows(
    member: GroupMember,
    connected: Seq<ConnectedOutput>,
    blocked: Set<u128>,
    taken: Seq<usize>,
    more_blocked: Set<u128>,
    more_taken: Seq<usize>,
) -> bool {
    forall|i: int|
        0 <= i < connected.len() && #[trigger] is_open(
            member,
            connected,
            more_blocked,
            more_taken,
            i,
        ) ==> is_open(member, connected, blocked, taken, i)
}

proof fn lemma_fewer_open(
    member: GroupMember,
    connected: Seq<ConnectedOutput>,
    blocked: Set<u128>,
    taken: Seq<usize>,
    more_blocked: Set<u128>,
    more_taken: Seq<usize>,
    n: int,
)
    requires
        0 <= n <= connected.len(),
        narrows(member, connected, blocked, taken, more_blocked, more_taken),
    ensures
        open_outputs(member, connected, more_blocked, more_taken, n).len() <= open_outputs(
            member,
            connected,
            blocked,
            taken,
            n,
        ).len(),
        open_outputs(member, connected, more_blocked, more_taken, n).filter(
            |c: (usize, bool)| c.1,
        ).len() <= open_outputs(member, connected, blocked, taken, n).filter(
            |c: (usize, bool)| c.1,
        ).len(),
    decreases n,
{
    reveal(Seq::filter);
    if n > 0 {
        lemma_fewer_open(member, connected, blocked, taken, more_blocked, more_taken, n - 1);
        let item = ((n - 1) as usize, names_connector(member, connected, n - 1));
        let few = open_outputs(member, connected, more_blocked, more_taken, n - 1);
        let many = open_outputs(member, connected, blocked, taken, n - 1);
        assert(few.push(item).drop_last() =~= few);
        assert(many.push(item).drop_last() =~= many);
    }
}

/// An output that serves a member still serves it when other outputs are no longer open.
pub proof fn lemma_output_stays(
    member: GroupMember,
    connected: Seq<ConnectedOutput>,
    blocked: Set<u128>,
    taken: Seq<usize>,
    more_blocked: Set<u128>,
    more_taken: Seq<usize>,
    i: usize,
)
    requires
        connected.len() <= usize::MAX,
        forall|k: u128| #[trigger] blocked.contains(k) ==> more_blocked.contains(k),
        forall|k: usize| #[trigger] taken.contains(k) ==> more_taken.contains(k),
        output_for(member, connected, blocked, taken) == Ok::<usize, CandidateChoiceError>(i),
        is_open(member, connected, more_blocked, more_taken, i as int),
    ensures
        output_for(member, connected, more_blocked, more_taken) == Ok::<
            usize,
            CandidateChoiceError,
        >(i),
{
    let n = connected.len() as int;
    let pred = |c: (usize, bool)| c.1;
    let many = open_outputs(member, connected, blocked, taken, n);
    let few = open_outputs(member, connected, more_blocked, more_taken, n);
    lemma_output_for_is_open(member, connected, blocked, taken);
    assert(narrows(member, connected, blocked, taken, more_blocked, more_taken));
    lemma_fewer_open(member, connected, blocked, taken, more_blocked, more_taken, n);
    let item = (i, names_connector(member, connected, i as int));
    lemma_open_is_listed(member, connected, more_blocked, more_taken, n, i as int);
    lemma_open_is_listed(member, connected, blocked, taken, n, i as int);
    lemma_open_outputs(member, connected, blocked, taken, n);
    crate::modes::lemma_filter_members(many, pred);
    crate::modes::lemma_filter_members(few, pred);
    let exact = many.filter(pred);
    if exact.len() == 1 {
        assert(exact.contains(exact[0]));
        lemma_listed_exactness(member, connected, blocked, taken, n);
        assert(many.contains(exact[0]));
        assert(item.1);
        assert(few.filter(pred).contains(item));
    } else {
        assert(many.len() == 1);
        assert(few.len() == 1);
        assert(few[0] == item);
    }
}

proof fn lemma_listed_exactness(
    member: GroupMember,
    connected: Seq<ConnectedOutput>,
    blocked: Set<u128>,
    taken: Seq<usize>,
    n: int,
)
    requires
        0 <= n <= connected.len() <= usize::MAX,
    ensures
        forall|c: (usize, bool)| #[trigger]
            open_outputs(member, connected, blocked, taken, n).contains(c) ==> c.1
                == names_connector(member, connected, c.0 as int),
    decreases n,
{
    if n > 0 {
        lemma_listed_exactness(member, connected, blocked, taken, n - 1);
        let all = open_outputs(member, connected, blocked, taken, n);
        let rest = open_outputs(member, connected, blocked, taken, n - 1);
        assert forall|c: (usize, bool)| #[trigger] all.contains(c) implies c.1 == names_connector(
            member,
            connected,
            c.0 as int,
        ) by {
            let k = choose|k: int| 0 <= k < all.len() && all[k] == c;
            if k < rest.len() {
                assert(rest[k] == c);
                assert(rest.contains(c));
            }
        }
    }
}

/// Finds the output that serves the member, skipping outputs in `taken`, in `occupied` and, where
/// `skip_claimed` says so, in `claimed`.
pub fn find_output(
    member: &GroupMember,
    connected: &[ConnectedOutput],
    occupied: &HashSet<u128>,
    claimed: &HashMap<u128, GroupMemberClaim>,
    skip_claimed: bool,
    taken: &Vec<usize>,
) -> (found: Result<usize, CandidateChoiceError>)
    requires
        member.matches@.len() == connected@.len(),
    ensures
        found == output_for(
            *member,
            connected@,
            blocked_keys(occupied@, claimed@, skip_claimed),
            taken@,
        ),
        found matches Ok(i) ==> i < connected@.len(),
{
    let ghost blocked = blocked_keys(occupied@, claimed@, skip_claimed);
    let mut choices: Vec<(usize, bool)> = Vec::new();
    for i in 0..connected.len()
        invariant
            member.matches@.len() == connected@.len(),
            blocked == blocked_keys(occupied@, claimed@, skip_claimed),
            choices@ == open_outputs(*member, connected@, blocked, taken@, i as int),
    {
        let key = member_key(connected[i].node, connected[i].crtc);
        let free = !occupied.contains(&key) && !(skip_claimed && claimed.contains_key(&key));
        assert(free == !blocked.contains(key));
        if !holds(taken, i) && member.matches[i] && free {
            let exact = connected[i].name.connector.eq_ignore_ascii_case(member.output.as_str());
            choices.push((i, exact));
        }
    }
    proof {
        lemma_output_for_is_open(*member, connected@, blocked, taken@);
    }
    choose_candidate(choices.as_slice())
}

/// The outputs that are not available: the occupied ones and, where wanted, the claimed ones.
pub open spec fn blocked_keys(
    occupied: Set<u128>,
    claimed: Map<u128, GroupMemberClaim>,
    skip_claimed: bool,
) -> Set<u128> {
    if skip_claimed {
        occupied.union(claimed.dom())
    } else {
        occupied
    }
}

/// Whether the list holds the index.
fn holds(list: &Vec<usize>, index: usize) -> (found: bool)
    ensures
        found == list@.contains(index),
{
    for i in 0..list.len()
        invariant
            forall|k: int| 0 <= k < i ==> list@[k] != index,
    {
        if list[i] == index {
            return true;
        }
    }
    false
}

/// The outputs that serve the first `k` members, members without one being passed over.
pub open spec fn present_outputs(
    group: DisplayGroup,
    connected: Seq<ConnectedOutput>,
    occupied: Set<u128>,
    k: int,
) -> Seq<usize>
    decreases k,
{
    if k <= 0 {
        Seq::empty()
    } else {
        let before = present_outputs(group, connected, occupied, k - 1);
        match output_for(group.members@[k - 1], connected, occupied, before) {
            Ok(i) => before.push(i),
            Err(_) => before,
        }
    }
}

/// The keys of the given outputs.
pub open spec fn keys_of(connected: Seq<ConnectedOutput>, outputs: Seq<usize>) -> Seq<u128> {
    Seq::new(outputs.len(), |i: int| key_of(connected[outputs[i] as int]))
}

/// The keys of the members that are present.
pub open spec fn present_keys(
    group: DisplayGroup,
    connected: Seq<ConnectedOutput>,
    occupied: Set<u128>,
) -> Seq<u128> {
    keys_of(
        connected,
        present_outputs(group, connected, occupied, group.members@.len() as int),
    )
}

/// Whether any of the keys is claimed.
pub open spec fn any_claimed(keys: Seq<u128>, claimed: Map<u128, GroupMemberClaim>) -> bool {
    exists|i: int| 0 <= i < keys.len() && claimed.contains_key(#[trigger] keys[i])
}

/// The members of a group that are present, and whether an earlier group claims one of them.
pub fn present_member_claims(
    group: &DisplayGroup,
    connected: &[ConnectedOutput],
    occupied: &HashSet<u128>,
    already_claimed: &HashMap<u128, GroupMemberClaim>,
) -> (present: (Vec<u128>, bool))
    requires
        group_matches(*group, connected@),
    ensures
        present.0@ == present_keys(*group, connected@, occupied@),
        present.1 == any_claimed(present.0@, already_claimed@),
{
    let mut taken: Vec<usize> = Vec::new();
    let mut claims: Vec<u128> = Vec::new();
    let mut conflicts = false;
    for k in 0..group.members.len()
        invariant
            group_matches(*group, connected@),
            taken@ == present_outputs(*group, connected@, occupied@, k as int),
            forall|i: int| 0 <= i < taken@.len() ==> (#[trigger] taken@[i]) < connected@.len(),
            claims@ == keys_of(connected@, taken@),
            conflicts == any_claimed(claims@, already_claimed@),
    {
        let found = find_output(
            &group.members[k],
            connected,
            occupied,
            already_claimed,
            false,
            &taken,
        );
        if let Ok(idx) = found {
            let key = member_key(connected[idx].node, connected[idx].crtc);
            let ghost old_claims = claims@;
            taken.push(idx);
            claims.push(key);
            let hit = already_claimed.contains_key(&key);
            proof {
                assert(claims@ =~= keys_of(connected@, taken@));
                assert(claims@[old_claims.len() as int] == key);
                assert forall|i: int| 0 <= i < old_claims.len() implies claims@[i]
                    == #[trigger] old_claims[i] by {}
                if any_claimed(old_claims, already_claimed@) {
                    let i = choose|i: int|
                        0 <= i < old_claims.len() && already_claimed@.contains_key(
                            #[trigger] old_claims[i],
                        );
                    assert(already_claimed@.contains_key(claims@[i]));
                }
                if any_claimed(claims@, already_claimed@) && !hit {
                    let i = choose|i: int|
                        0 <= i < claims@.len() && already_claimed@.contains_key(
                            #[trigger] claims@[i],
                        );
                    assert(already_claimed@.contains_key(old_claims[i]));
                }
            }
            conflicts = conflicts || hit;
        }
    }
    (claims, conflicts)
}

/// Turning by a quarter, in either direction and flipped or not, exchanges width and height; every
/// other transform keeps them.
pub proof fn law_quarter_turns_exchange_width_and_height(size: (u16, u16), transform: Transform)
    ensures
        match transform {
            Transform::_90 | Transform::_270 | Transform::Flipped90 | Transform::Flipped270 => turned(
                size,
                transform,
            ) == (size.1, size.0),
            Transform::Normal | Transform::_180 | Transform::Flipped | Transform::Flipped180 => turned(
                size,
                transform,
            ) == size,
        },
        turned(turned(size, transform), transform) == size,
{
}

/// Members are claimed for a plan exactly when one was made and its output is not turned off; all
/// others are only kept from becoming outputs of their own.
pub proof fn law_only_live_plans_own_their_members(off: bool, plan_succeeded: bool)
    ensures
        claim_policy(off, plan_succeeded) == GroupMemberClaim::Planned <==> plan_succeeded && !off,
        claim_policy(off, plan_succeeded) == GroupMemberClaim::SuppressStandalone
            <==> !plan_succeeded || off,
{
}

/// Claims that are committed reach every present member and change no other claim.
pub proof fn law_claims_reach_present_members_only<K>(
    claims: Map<K, GroupMemberClaim>,
    present: Set<K>,
    policy: GroupMemberClaim,
    key: K,
)
    ensures
        present.contains(key) ==> with_claims(claims, present, policy).contains_key(key)
            && with_claims(claims, present, policy)[key] == policy,
        !present.contains(key) ==> (with_claims(claims, present, policy).contains_key(key)
            <==> claims.contains_key(key)),
        !present.contains(key) && claims.contains_key(key) ==> with_claims(
            claims,
            present,
            policy,
        )[key] == claims[key],
{
}

proof fn lemma_filter_none<A>(items: Seq<A>, pred: spec_fn(A) -> bool)
    requires
        forall|j: int| 0 <= j < items.len() ==> !pred(#[trigger] items[j]),
    ensures
        items.filter(pred) == Seq::<A>::empty(),
    decreases items.len(),
{
    reveal(Seq::filter);
    if items.len() > 0 {
        assert(!pred(items.last()));
        assert forall|j: int| 0 <= j < items.drop_last().len() implies !pred(
            #[trigger] items.drop_last()[j],
        ) by {
            assert(items.drop_last()[j] == items[j]);
        }
        lemma_filter_none(items.drop_last(), pred);
    }
}

proof fn lemma_filter_sole<A>(items: Seq<A>, pred: spec_fn(A) -> bool, i: int)
    requires
        0 <= i < items.len(),
        pred(items[i]),
        forall|j: int| 0 <= j < items.len() && j != i ==> !pred(#[trigger] items[j]),
    ensures
        items.filter(pred) == seq![items[i]],
    decreases items.len(),
{
    reveal(Seq::filter);
    let rest = items.drop_last();
    assert forall|j: int| 0 <= j < rest.len() && j != i implies !pred(#[trigger] rest[j]) by {
        assert(rest[j] == items[j]);
    }
    if i == items.len() - 1 {
        lemma_filter_none(rest, pred);
        assert(items.filter(pred) =~= seq![items[i]]);
    } else {
        lemma_filter_sole(rest, pred, i);
        assert(!pred(items.last()));
    }
}

proof fn lemma_filter_holds<A>(items: Seq<A>, pred: spec_fn(A) -> bool, i: int)
    requires
        0 <= i < items.len(),
        pred(items[i]),
    ensures
        items.filter(pred).len() >= 1,
    decreases items.len(),
{
    reveal(Seq::filter);
    if i < items.len() - 1 {
        assert(items.drop_last()[i] == items[i]);
        lemma_filter_holds(items.drop_last(), pred, i);
    }
}

proof fn lemma_filter_several<A>(items: Seq<A>, pred: spec_fn(A) -> bool, i: int, j: int)
    requires
        0 <= i < j < items.len(),
        pred(items[i]),
        pred(items[j]),
    ensures
        items.filter(pred).len() >= 2,
    decreases items.len(),
{
    reveal(Seq::filter);
    let rest = items.drop_last();
    assert(rest[i] == items[i]);
    if j < items.len() - 1 {
        assert(rest[j] == items[j]);
        lemma_filter_several(rest, pred, i, j);
    } else {
        lemma_filter_holds(rest, pred, i);
    }
}

/// A candidate is chosen exactly when there is no doubt: the one that is exact or, where none is
/// exact, the only one. Several exact candidates, or several of which none is exact, are ambiguous.
pub proof fn law_candidates_are_chosen_without_doubt(candidates: Seq<(usize, bool)>, i: int, j: int)
    requires
        0 <= i < candidates.len(),
        0 <= j < candidates.len(),
    ensures
        candidates[i].1 && (forall|k: int|
            0 <= k < candidates.len() && k != i ==> !(#[trigger] candidates[k]).1)
            ==> sole_candidate(candidates) == Ok::<usize, CandidateChoiceError>(candidates[i].0),
        i != j && candidates[i].1 && candidates[j].1 ==> sole_candidate(candidates) == Err::<
            usize,
            CandidateChoiceError,
        >(CandidateChoiceError::Ambiguous),
        (forall|k: int| 0 <= k < candidates.len() ==> !(#[trigger] candidates[k]).1)
            && candidates.len() == 1 ==> sole_candidate(candidates) == Ok::<
            usize,
            CandidateChoiceError,
        >(candidates[0].0),
        (forall|k: int| 0 <= k < candidates.len() ==> !(#[trigger] candidates[k]).1)
            && candidates.len() > 1 ==> sole_candidate(candidates) == Err::<
            usize,
            CandidateChoiceError,
        >(CandidateChoiceError::Ambiguous),
        sole_candidate(Seq::<(usize, bool)>::empty()) == Err::<usize, CandidateChoiceError>(
            CandidateChoiceError::Missing,
        ),
{
    let pred = |c: (usize, bool)| c.1;
    if candidates[i].1 && (forall|k: int|
        0 <= k < candidates.len() && k != i ==> !(#[trigger] candidates[k]).1) {
        lemma_filter_sole(candidates, pred, i);
    }
    if i != j && candidates[i].1 && candidates[j].1 {
        if i < j {
            lemma_filter_several(candidates, pred, i, j);
        } else {
            lemma_filter_several(candidates, pred, j, i);
        }
    }
    if forall|k: int| 0 <= k < candidates.len() ==> !(#[trigger] candidates[k]).1 {
        lemma_filter_none(candidates, pred);
    }
    lemma_filter_none(Seq::<(usize, bool)>::empty(), pred);
}

proof fn lemma_open_outputs_ordered(
    member: GroupMember,
    connected: Seq<ConnectedOutput>,
    blocked: Set<u128>,
    taken: Seq<usize>,
    n: int,
)
    requires
        0 <= n <= connected.len() <= usize::MAX,
    ensures
        ({
            let all = open_outputs(member, connected, blocked, taken, n);
            &&& forall|k: int|
                0 <= k < all.len() ==> (#[trigger] all[k]).0 < n && is_open(
                    member,
                    connected,
                    blocked,
                    taken,
                    all[k].0 as int,
                ) && all[k].1 == names_connector(member, connected, all[k].0 as int)
            &&& forall|k: int, l: int|
                0 <= k < l < all.len() ==> (#[trigger] all[k]).0 < (#[trigger] all[l]).0
            &&& forall|i: int|
                0 <= i < n && #[trigger] is_open(member, connected, blocked, taken, i) ==> exists|
                    k: int,
                |
                    0 <= k < all.len() && (#[trigger] all[k]).0 == i
        }),
    decreases n,
{
    if n > 0 {
        lemma_open_outputs_ordered(member, connected, blocked, taken, n - 1);
        let before = open_outputs(member, connected, blocked, taken, n - 1);
        let all = open_outputs(member, connected, blocked, taken, n);
        assert forall|i: int|
            0 <= i < n && #[trigger] is_open(member, connected, blocked, taken, i) implies exists|
            k: int,
        |
            0 <= k < all.len() && (#[trigger] all[k]).0 == i by {
            if i < n - 1 {
                let k = choose|k: int| 0 <= k < before.len() && (#[trigger] before[k]).0 == i;
                assert(all[k] == before[k]);
            } else {
                assert(all[before.len() as int].0 == i);
            }
        }
    }
}

/// A member is served by an output that its selector matches, that is free and that no earlier
/// member took: the one whose connector it names or, where it names none, the only one. Without
/// such an output it is missing.
pub proof fn law_members_are_served_by_free_matching_outputs(
    member: GroupMember,
    connected: Seq<ConnectedOutput>,
    blocked: Set<u128>,
    taken: Seq<usize>,
    i: int,
)
    requires
        connected.len() <= usize::MAX,
        0 <= i < connected.len(),
    ensures
        output_for(member, connected, blocked, taken) matches Ok(o) ==> {
            &&& o < connected.len()
            &&& member.matches@[o as int]
            &&& !blocked.contains(spec_member_key(connected[o as int].node, connected[o as int].crtc))
            &&& !taken.contains(o)
        },
        is_open(member, connected, blocked, taken, i) && text::same_ignoring_case(
            connected[i].name.connector@,
            member.output@,
        ) && (forall|j: int|
            0 <= j < connected.len() && j != i && #[trigger] is_open(
                member,
                connected,
                blocked,
                taken,
                j,
            ) ==> !text::same_ignoring_case(connected[j].name.connector@, member.output@))
            ==> output_for(member, connected, blocked, taken) == Ok::<usize, CandidateChoiceError>(
            i as usize,
        ),
        is_open(member, connected, blocked, taken, i) && (forall|j: int|
            0 <= j < connected.len() && j != i ==> !#[trigger] is_open(
                member,
                connected,
                blocked,
                taken,
                j,
            )) ==> output_for(member, connected, blocked, taken) == Ok::<
            usize,
            CandidateChoiceError,
        >(i as usize),
        (forall|j: int|
            0 <= j < connected.len() ==> !#[trigger] is_open(member, connected, blocked, taken, j))
            <==> output_for(member, connected, blocked, taken) == Err::<
            usize,
            CandidateChoiceError,
        >(CandidateChoiceError::Missing),
{
    let n = connected.len() as int;
    let all = open_outputs(member, connected, blocked, taken, n);
    lemma_output_for_is_open(member, connected, blocked, taken);
    lemma_open_outputs_ordered(member, connected, blocked, taken, n);
    if all.len() == 0 {
        lemma_filter_none(all, |c: (usize, bool)| c.1);
    } else {
        assert(is_open(member, connected, blocked, taken, all[0].0 as int));
    }
    if is_open(member, connected, blocked, taken, i) {
        let k = choose|k: int| 0 <= k < all.len() && (#[trigger] all[k]).0 == i;
        if names_connector(member, connected, i) && (forall|j: int|
            0 <= j < connected.len() && j != i && #[trigger] is_open(
                member,
                connected,
                blocked,
                taken,
                j,
            ) ==> !names_connector(member, connected, j)) {
            assert forall|l: int| 0 <= l < all.len() && l != k implies !(#[trigger] all[l]).1 by {
                assert(is_open(member, connected, blocked, taken, all[l].0 as int));
                assert(all[l].0 != all[k].0);
            }
            law_candidates_are_chosen_without_doubt(all, k, k);
        }
        if forall|j: int|
            0 <= j < connected.len() && j != i ==> !#[trigger] is_open(
                member,
                connected,
                blocked,
                taken,
                j,
            ) {
            assert(all.len() == 1) by {
                if all.len() > 1 {
                    let l: int = if k == 0 {
                        1
                    } else {
                        0
                    };
                    assert(is_open(member, connected, blocked, taken, all[l].0 as int));
                    assert(all[l].0 != all[k].0);
                }
            }
            law_candidates_are_chosen_without_doubt(all, 0, 0);
        }
    }
    if all.len() > 0 {
        lemma_some_candidate_is_not_missing(all);
    }
}

proof fn lemma_some_candidate_is_not_missing(candidates: Seq<(usize, bool)>)
    requires
        candidates.len() > 0,
    ensures
        sole_candidate(candidates) != Err::<usize, CandidateChoiceError>(
            CandidateChoiceError::Missing,
        ),
{
}

/// A key is blocked where it is occupied and, where earlier claims are respected, where it is
/// claimed.
pub proof fn law_blocked_outputs_are_occupied_or_claimed(
    occupied: Set<u128>,
    claimed: Map<u128, GroupMemberClaim>,
    skip_claimed: bool,
    key: u128,
)
    ensures
        blocked_keys(occupied, claimed, skip_claimed).contains(key) <==> occupied.contains(key) || (
        skip_claimed && claimed.contains_key(key)),
{
}

/// The members that are present are connected outputs that some selector of the group matches and
/// that are not occupied; a member whose only output is matched by no earlier member is present.
pub proof fn law_present_members_are_matched_and_free(
    group: DisplayGroup,
    connected: Seq<ConnectedOutput>,
    occupied: Set<u128>,
    i: int,
    o: int,
)
    requires
        connected.len() <= usize::MAX,
    ensures
        0 <= i < present_keys(group, connected, occupied).len() ==> ({
            let key = present_keys(group, connected, occupied)[i];
            &&& !occupied.contains(key)
            &&& exists|k: int, m: int|
                0 <= k < connected.len() && 0 <= m < group.members@.len() && (
                #[trigger] group.members@[m]).matches@[k] && key == spec_member_key(
                    (#[trigger] connected[k]).node,
                    connected[k].crtc,
                )
        }),
        0 <= i < group.members@.len() && 0 <= o < connected.len()
            && group.members@[i].matches@[o] && !occupied.contains(key_of(connected[o])) && (forall|
            k: int,
        |
            0 <= k < connected.len() && k != o ==> !group.members@[i].matches@[k]) && (forall|
            m: int,
        |
            0 <= m < i ==> !(#[trigger] group.members@[m]).matches@[o]) ==> present_keys(
            group,
            connected,
            occupied,
        ).contains(key_of(connected[o])),
{
    let n = group.members@.len() as int;
    lemma_present_outputs(group, connected, occupied, n);
    let present = present_outputs(group, connected, occupied, n);
    let keys = present_keys(group, connected, occupied);
    if 0 <= i < keys.len() {
        let k = present[i] as int;
        let m = choose|m: int|
            0 <= m < n && (#[trigger] group.members@[m]).matches@[present[i] as int];
        assert(group.members@[m].matches@[k]);
        assert(connected[k] == connected[k]);
    }
    if 0 <= i < n && 0 <= o < connected.len() && group.members@[i].matches@[o]
        && !occupied.contains(key_of(connected[o])) && (forall|k: int|
        0 <= k < connected.len() && k != o ==> !group.members@[i].matches@[k]) && (forall|m: int|
        0 <= m < i ==> !(#[trigger] group.members@[m]).matches@[o]) {
        let before = present_outputs(group, connected, occupied, i);
        lemma_present_outputs(group, connected, occupied, i);
        assert(!before.contains(o as usize)) by {
            if before.contains(o as usize) {
                let x = choose|x: int| 0 <= x < before.len() && before[x] == o as usize;
                let m = choose|m: int|
                    0 <= m < i && (#[trigger] group.members@[m]).matches@[before[x] as int];
                assert(group.members@[m].matches@[o]);
            }
        }
        assert(is_open(group.members@[i], connected, occupied, before, o));
        assert forall|j: int| 0 <= j < connected.len() && j != o implies !#[trigger] is_open(
            group.members@[i],
            connected,
            occupied,
            before,
            j,
        ) by {
            assert(!group.members@[i].matches@[j]);
        }
        law_members_are_served_by_free_matching_outputs(
            group.members@[i],
            connected,
            occupied,
            before,
            o,
        );
        let at = present_outputs(group, connected, occupied, i + 1);
        assert(at[at.len() - 1] == o as usize);
        lemma_present_stay(group, connected, occupied, i + 1, n, o as usize);
        let x = choose|x: int| 0 <= x < present.len() && present[x] == o as usize;
        assert(keys[x] == key_of(connected[o]));
    }
}

proof fn lemma_present_outputs(
    group: DisplayGroup,
    connected: Seq<ConnectedOutput>,
    occupied: Set<u128>,
    n: int,
)
    requires
        0 <= n <= group.members@.len(),
        connected.len() <= usize::MAX,
    ensures
        forall|x: int|
            0 <= x < present_outputs(group, connected, occupied, n).len() ==> {
                let at = #[trigger] present_outputs(group, connected, occupied, n)[x];
                &&& at < connected.len()
                &&& !occupied.contains(key_of(connected[at as int]))
                &&& exists|m: int|
                    0 <= m < n && (#[trigger] group.members@[m]).matches@[at as int]
            },
    decreases n,
{
    if n > 0 {
        lemma_present_outputs(group, connected, occupied, n - 1);
        let before = present_outputs(group, connected, occupied, n - 1);
        let after = present_outputs(group, connected, occupied, n);
        lemma_output_for_is_open(group.members@[n - 1], connected, occupied, before);
        assert forall|x: int| 0 <= x < after.len() implies ({
            let at = #[trigger] after[x];
            &&& at < connected.len()
            &&& !occupied.contains(key_of(connected[at as int]))
            &&& exists|m: int| 0 <= m < n && (#[trigger] group.members@[m]).matches@[at as int]
        }) by {
            if x < before.len() {
                assert(after[x] == before[x]);
                let m = choose|m: int|
                    0 <= m < n - 1 && (#[trigger] group.members@[m]).matches@[before[x] as int];
                assert(group.members@[m].matches@[after[x] as int]);
            } else {
                assert(group.members@[n - 1].matches@[after[x] as int]);
            }
        }
    }
}

proof fn lemma_present_stay(
    group: DisplayGroup,
    connected: Seq<ConnectedOutput>,
    occupied: Set<u128>,
    k: int,
    n: int,
    at: usize,
)
    requires
        0 <= k <= n,
        present_outputs(group, connected, occupied, k).contains(at),
    ensures
        present_outputs(group, connected, occupied, n).contains(at),
    decreases n - k,
{
    if k < n {
        lemma_present_stay(group, connected, occupied, k, n - 1, at);
        let before = present_outputs(group, connected, occupied, n - 1);
        let after = present_outputs(group, connected, occupied, n);
        let x = choose|x: int| 0 <= x < before.len() && before[x] == at;
        assert(after[x] == at);
    }
}

} // verus!
