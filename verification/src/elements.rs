//! How the elements of a scene were shown, merged over the members of a group.

use std::collections::HashMap;

use vstd::prelude::*;

verus! {

/// Why an element was rendered instead of being scanned out directly.
#[derive(Debug, Clone, Copy, PartialEq, Eq, Structural)]
pub enum RenderingReason {
    FormatUnsupported,
    ScanoutFailed,
}

/// How an element was shown.
#[derive(Debug, Clone, Copy, PartialEq, Eq)]
pub enum RenderElementPresentationState {
    Rendering { reason: Option<RenderingReason> },
    ZeroCopy,
    Skipped,
}

/// How much of an element is visible and how it was shown.
#[derive(Debug, Clone, Copy, PartialEq, Eq)]
pub struct RenderElementState {
    /// Visible physical pixels.
    pub visible_area: usize,
    pub presentation_state: RenderElementPresentationState,
    pub needs_capture: bool,
}

/// The states of the elements of one frame, by element number.
#[derive(Debug)]
pub struct RenderElementStates {
    pub states: HashMap<u64, RenderElementState>,
}

/// How an element was shown that two members show parts of.
pub open spec fn shown_together(
    current: RenderElementPresentationState,
    next: RenderElementPresentationState,
) -> RenderElementPresentationState {
    match (current, next) {
        (RenderElementPresentationState::Skipped, state) => state,
        (state, RenderElementPresentationState::Skipped) => state,
        (RenderElementPresentationState::ZeroCopy, state) => state,
        (state, RenderElementPresentationState::ZeroCopy) => state,
        (
            RenderElementPresentationState::Rendering { reason },
            RenderElementPresentationState::Rendering { reason: next_reason },
        ) => RenderElementPresentationState::Rendering {
            reason: match reason {
                Some(r) => Some(r),
                None => next_reason,
            },
        },
    }
}

/// The state of an element that two members show parts of.
pub open spec fn combined(current: RenderElementState, next: RenderElementState) -> RenderElementState {
    RenderElementState {
        visible_area: if current.visible_area + next.visible_area <= usize::MAX {
            (current.visible_area + next.visible_area) as usize
        } else {
            usize::MAX
        },
        presentation_state: shown_together(current.presentation_state, next.presentation_state),
        needs_capture: current.needs_capture || next.needs_capture,
    }
}

/// The states of two members together; an element that only one of them has keeps its state.
pub open spec fn merged_states(
    merged: Map<u64, RenderElementState>,
    member: Map<u64, RenderElementState>,
) -> Map<u64, RenderElementState> {
    Map::new(
        |id: u64| merged.contains_key(id) || member.contains_key(id),
        |id: u64|
            if !member.contains_key(id) {
                merged[id]
            } else if !merged.contains_key(id) {
                member[id]
            } else {
                combined(merged[id], member[id])
            },
    )
}

fn merge_presentation_state(
    current: RenderElementPresentationState,
    next: RenderElementPresentationState,
) -> (state: RenderElementPresentationState)
    ensures
        state == shown_together(current, next),
{
    match (current, next) {
        (RenderElementPresentationState::Skipped, state) => state,
        (state, RenderElementPresentationState::Skipped) => state,
        (
            RenderElementPresentationState::ZeroCopy,
            RenderElementPresentationState::ZeroCopy,
        ) => RenderElementPresentationState::ZeroCopy,
        (
            RenderElementPresentationState::Rendering { reason },
            RenderElementPresentationState::Rendering { reason: next_reason },
        ) => match reason {
            Some(r) => RenderElementPresentationState::Rendering { reason: Some(r) },
            None => RenderElementPresentationState::Rendering { reason: next_reason },
        },
        (
            RenderElementPresentationState::Rendering { reason },
            RenderElementPresentationState::ZeroCopy,
        ) => RenderElementPresentationState::Rendering { reason },
        (
            RenderElementPresentationState::ZeroCopy,
            RenderElementPresentationState::Rendering { reason },
        ) => RenderElementPresentationState::Rendering { reason },
    }
}

/// Merges member-local element states for one logical output.
///
/// Visible area is summed in physical pixels. An element is reported as zero-copy only when every
/// visible fragment across every member was scanned out directly; one rendered fragment makes the
/// logical element rendered. Members where the element is absent or skipped are neutral.
pub fn merge_render_element_states(merged: &mut RenderElementStates, member: &RenderElementStates)
    ensures
        final(merged).states@ == merged_states(old(merged).states@, member.states@),
{
    let ghost start = merged.states@;
    let ghost all = member.states@;
    let ghost mut seen: Seq<u64> = Seq::empty();
    assert(merged.states@ =~= start);
    for entry in it: member.states.iter()
        invariant
            all == member.states@,
            forall|i: int|
                0 <= i < it.seq().len() ==> all.contains_key(*(#[trigger] it.seq()[i]).0)
                    && all[*it.seq()[i].0] == *it.seq()[i].1,
            it.seq().no_duplicates(),
            forall|id: u64| #[trigger]
                all.contains_key(id) ==> it.seq().contains((&id, &all[id])),
            seen.len() == it.index(),
            forall|i: int| 0 <= i < seen.len() ==> #[trigger] seen[i] == *it.seq()[i].0,
            forall|i: int| 0 <= i < seen.len() ==> all.contains_key(#[trigger] seen[i]),
            it.index() == it.seq().len() ==> forall|id: u64| #[trigger]
                all.contains_key(id) ==> seen.contains(id),
            forall|id: u64| #[trigger]
                merged.states@.contains_key(id) <==> start.contains_key(id) || seen.contains(id),
            forall|id: u64|
                merged.states@.contains_key(id) ==> #[trigger] merged.states@[id] == (
                if seen.contains(id) {
                    merged_states(start, all)[id]
                } else {
                    start[id]
                }),
    {
        let ghost before = merged.states@;
        let id: u64 = *entry.0;
        let next = *entry.1;
        proof {
            let index = it.index() as int;
            assert(it.seq()[index] == entry);
            assert(all.contains_key(id) && all[id] == next);
            if seen.contains(id) {
                let i = choose|i: int| 0 <= i < seen.len() && seen[i] == id;
                assert(*it.seq()[i].0 == id);
                assert(all[*it.seq()[i].0] == *it.seq()[i].1);
                assert(it.seq()[i] == it.seq()[index]);
            }
            assert(before.contains_key(id) <==> start.contains_key(id));
        }
        let state = match merged.states.get(&id) {
            Some(current) => RenderElementState {
                visible_area: current.visible_area.saturating_add(next.visible_area),
                presentation_state: merge_presentation_state(
                    current.presentation_state,
                    next.presentation_state,
                ),
                needs_capture: current.needs_capture || next.needs_capture,
            },
            None => next,
        };
        assert(state == merged_states(start, all)[id]);
        merged.states.insert(id, state);
        proof {
            let prev = seen;
            seen = seen.push(id);
            assert forall|k: u64| seen.contains(k) <==> #[trigger] prev.contains(k) || k == id by {
                if prev.contains(k) {
                    let i = choose|i: int| 0 <= i < prev.len() && prev[i] == k;
                    assert(seen[i] == k);
                }
                assert(seen[prev.len() as int] == id);
                if seen.contains(k) && k != id {
                    let i = choose|i: int| 0 <= i < seen.len() && seen[i] == k;
                    assert(prev[i] == k);
                }
            }
            assert forall|k: u64| #[trigger]
                merged.states@.contains_key(k) <==> start.contains_key(k) || seen.contains(k) by {
                assert(before.contains_key(k) <==> start.contains_key(k) || prev.contains(k));
            }
            assert forall|k: u64|
                merged.states@.contains_key(k) implies #[trigger] merged.states@[k] == (
            if seen.contains(k) {
                merged_states(start, all)[k]
            } else {
                start[k]
            }) by {
                if k != id {
                    assert(prev.contains(k) <==> seen.contains(k));
                    assert(merged.states@[k] == before[k]);
                }
            }
            assert forall|k: u64|
                it.index() + 1 == it.seq().len() && #[trigger] all.contains_key(
                    k,
                ) implies seen.contains(k) by {
                assert(it.seq().contains((&k, &all[k])));
                let i = choose|i: int| 0 <= i < it.seq().len() && it.seq()[i] == (&k, &all[k]);
                assert(seen[i] == *it.seq()[i].0);
            }
        }
    }
    proof {
        let expected = merged_states(start, all);
        assert forall|k: u64| seen.contains(k) implies #[trigger] all.contains_key(k) by {
            let i = choose|i: int| 0 <= i < seen.len() && seen[i] == k;
        }
        assert(merged.states@ =~= expected);
    }
}

/// An element that both members show counts as scanned out directly exactly when neither rendered
/// its part and at least one scanned its part out.
pub proof fn law_zero_copy_needs_every_visible_part(
    current: RenderElementPresentationState,
    next: RenderElementPresentationState,
)
    ensures
        shown_together(current, next) is ZeroCopy <==> !(current is Rendering) && !(
        next is Rendering) && (current is ZeroCopy || next is ZeroCopy),
        shown_together(current, next) is Rendering <==> current is Rendering || next is Rendering,
        shown_together(current, next) is Skipped <==> current is Skipped && next is Skipped,
{
}

/// An element of the merged states is one that some member shows, and it needs capture exactly
/// when some member that shows it says so.
pub proof fn law_capture_is_needed_where_any_member_needs_it(
    a: Map<u64, RenderElementState>,
    b: Map<u64, RenderElementState>,
    id: u64,
)
    ensures
        merged_states(a, b).contains_key(id) <==> a.contains_key(id) || b.contains_key(id),
        merged_states(a, b).contains_key(id) ==> (merged_states(a, b)[id].needs_capture <==> (
        a.contains_key(id) && a[id].needs_capture) || (b.contains_key(id) && b[id].needs_capture)),
{
}

/// The visible area of a merged element is what its members show of it together, up to the largest
/// number that can be counted; a member that does not show it adds nothing.
pub proof fn law_visible_areas_add_up(
    a: Map<u64, RenderElementState>,
    b: Map<u64, RenderElementState>,
    id: u64,
)
    requires
        a.contains_key(id) || b.contains_key(id),
    ensures
        ({
            let of_a = if a.contains_key(id) {
                a[id].visible_area as int
            } else {
                0
            };
            let of_b = if b.contains_key(id) {
                b[id].visible_area as int
            } else {
                0
            };
            let area = merged_states(a, b)[id].visible_area;
            &&& of_a + of_b <= usize::MAX ==> area == of_a + of_b
            &&& of_a + of_b > usize::MAX ==> area == usize::MAX
        }),
{
}

/// An element that only one member shows keeps the state that it has there.
pub proof fn law_members_without_an_element_are_neutral(
    a: Map<u64, RenderElementState>,
    b: Map<u64, RenderElementState>,
    id: u64,
)
    ensures
        a.contains_key(id) && !b.contains_key(id) ==> merged_states(a, b)[id] == a[id]
            && merged_states(b, a)[id] == a[id],
{
}

/// Merging the members in the other order gives the same elements with the same need for capture,
/// the same visible area and the same kind of presentation.
pub proof fn law_member_order_does_not_matter(
    a: Map<u64, RenderElementState>,
    b: Map<u64, RenderElementState>,
    id: u64,
)
    ensures
        merged_states(a, b).contains_key(id) <==> merged_states(b, a).contains_key(id),
        merged_states(a, b).contains_key(id) ==> {
            let one = merged_states(a, b)[id];
            let other = merged_states(b, a)[id];
            &&& one.needs_capture == other.needs_capture
            &&& one.visible_area == other.visible_area
            &&& one.presentation_state is ZeroCopy <==> other.presentation_state is ZeroCopy
            &&& one.presentation_state is Skipped <==> other.presentation_state is Skipped
        },
{
}

/// An element is reported as scanned out directly exactly when some member scans a part of it out
/// and no member renders a part of it; a part that is skipped does not count.
pub proof fn law_one_rendered_part_makes_the_element_rendered(
    a: Map<u64, RenderElementState>,
    b: Map<u64, RenderElementState>,
    id: u64,
)
    requires
        a.contains_key(id),
        b.contains_key(id),
    ensures
        ({
            let shown = merged_states(a, b)[id].presentation_state;
            let of_a = a[id].presentation_state;
            let of_b = b[id].presentation_state;
            &&& shown is Rendering <==> of_a is Rendering || of_b is Rendering
            &&& shown is ZeroCopy <==> !(of_a is Rendering) && !(of_b is Rendering) && (
            of_a is ZeroCopy || of_b is ZeroCopy)
        }),
{
}

/// The reason for which an element is rendered is that of a member that renders it, and the first
/// reason that a member gives stays.
pub proof fn law_the_first_rendering_reason_stays(
    current: RenderElementPresentationState,
    next: RenderElementPresentationState,
)
    ensures
        current matches RenderElementPresentationState::Rendering { reason: Some(r) }
            ==> shown_together(current, next) == current,
        !(current matches RenderElementPresentationState::Rendering { reason: Some(r) })
            && next is Rendering ==> shown_together(current, next) == next,
        current is Rendering && !(next is Rendering) ==> shown_together(current, next) == current,
{
}

/// Merging in another grouping of the members gives the same states: members may be merged one by
/// one.
pub proof fn law_merging_is_associative(
    a: Map<u64, RenderElementState>,
    b: Map<u64, RenderElementState>,
    c: Map<u64, RenderElementState>,
)
    ensures
        merged_states(merged_states(a, b), c) == merged_states(a, merged_states(b, c)),
{
    assert(merged_states(merged_states(a, b), c) =~= merged_states(a, merged_states(b, c)));
}

} // verus!
