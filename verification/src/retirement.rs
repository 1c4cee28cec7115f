//! Retiring the members of a withdrawn logical output.

use vstd::prelude::*;

use crate::bits;
use crate::bits::full_mask;
use crate::bits::member_bit;
use crate::layout::MAX_GROUP_MEMBERS;

verus! {

/// Confirmed member retirement for a withdrawn logical output.
///
/// A member bit is set only after its KMS disable succeeds or its device disappears. The host
/// retains every surface whose bit remains clear.
#[derive(Debug, Clone, Copy, PartialEq, Eq, Structural)]
pub struct MemberRetirement {
    expected_mask: u8,
    retired_mask: u8,
}

/// The member that is meant where retirement is confirmed: member numbers have 32 bits, and what is
/// above them is cut off.
pub open spec fn numbered(member: usize) -> int {
    member as int % 0x1_0000_0000
}

impl MemberRetirement {
    /// Whether member `i` belongs to the group.
    pub closed spec fn expects(self, i: int) -> bool {
        bits::has_bit(self.expected_mask, i)
    }

    /// Whether member `i` is retired.
    pub closed spec fn retired(self, i: int) -> bool {
        bits::has_bit(self.retired_mask, i)
    }

    /// Only members of the group are retired, and there are at most four of them.
    pub open spec fn wf(self) -> bool {
        &&& forall|i: int| #[trigger] self.retired(i) ==> self.expects(i)
        &&& forall|i: int| #[trigger] self.expects(i) ==> 0 <= i < MAX_GROUP_MEMBERS
        &&& exists|i: int| #[trigger] self.expects(i)
    }

    /// Whether member `i` is still to be retired.
    pub open spec fn pending(self, i: int) -> bool {
        self.expects(i) && !self.retired(i)
    }

    /// Whether no member is still to be retired.
    pub open spec fn complete(self) -> bool {
        forall|i: int| #[trigger] self.expects(i) ==> self.retired(i)
    }

    /// Whether `after` is this state with the given member retired too.
    pub open spec fn retires(self, after: Self, member: int) -> bool {
        &&& forall|i: int| #[trigger] after.expects(i) == self.expects(i)
        &&& forall|i: int| #[trigger] after.retired(i) <==> self.retired(i) || i == member
    }

    pub fn new(member_count: usize) -> (retirement: Self)
        requires
            2 <= member_count <= MAX_GROUP_MEMBERS,
        ensures
            retirement.wf(),
            forall|i: int| #[trigger] retirement.expects(i) <==> 0 <= i < member_count,
            forall|i: int| !#[trigger] retirement.retired(i),
    {
        let expected_mask = full_mask(member_count);
        proof {
            bits::lemma_empty(0);
            assert(bits::has_bit(expected_mask, 0));
        }
        let retirement = MemberRetirement { expected_mask, retired_mask: 0 };
        assert(retirement.expects(0));
        retirement
    }

    pub fn is_retired(self, member: usize) -> (yes: bool)
        requires
            self.wf(),
        ensures
            yes == self.retired(member as int),
    {
        if member >= MAX_GROUP_MEMBERS {
            return false;
        }
        let bit = member_bit(member as u32);
        proof {
            bits::lemma_intersection(self.retired_mask, bit);
            bits::lemma_empty(self.retired_mask & bit);
            if self.retired_mask & bit != 0 {
                let i = choose|i: int| #[trigger] bits::has_bit(self.retired_mask & bit, i);
                assert(i == member);
            } else {
                assert(!bits::has_bit(self.retired_mask & bit, member as int));
                assert(bits::has_bit(bit, member as int));
            }
        }
        self.retired_mask & bit != 0
    }

    /// Confirms that a member is retired; returns whether it belongs to the group.
    pub fn confirm(&mut self, member: usize) -> (known: bool)
        requires
            old(self).wf(),
        ensures
            final(self).wf(),
            known == old(self).expects(numbered(member)),
            known ==> old(self).retires(*final(self), numbered(member)),
            !known ==> *final(self) == *old(self),
    {
        let number: u32 = (member as u64 % 0x1_0000_0000) as u32;
        if number >= 8 {
            return false;
        }
        let bit = member_bit(number);
        proof {
            bits::lemma_intersection(bit, self.expected_mask);
            bits::lemma_empty(bit & self.expected_mask);
        }
        if bit & self.expected_mask == 0 {
            assert(!bits::has_bit(bit & self.expected_mask, number as int));
            assert(bits::has_bit(bit, number as int));
            return false;
        }
        proof {
            let i = choose|i: int| #[trigger] bits::has_bit(bit & self.expected_mask, i);
            assert(i == number);
            bits::lemma_union(self.retired_mask, bit);
        }
        let ghost before = *self;
        self.retired_mask = self.retired_mask | bit;
        proof {
            assert forall|i: int| #[trigger] self.retired(i) implies self.expects(i) by {
                assert(before.retired(i) ==> before.expects(i));
            }
            assert forall|i: int| #[trigger] self.expects(i) implies 0 <= i
                < MAX_GROUP_MEMBERS by {
                assert(before.expects(i));
            }
            let i = choose|i: int| #[trigger] before.expects(i);
            assert(self.expects(i));
        }
        true
    }

    /// The members still to be retired, one bit each.
    pub fn pending_mask(self) -> (mask: u8)
        ensures
            forall|i: int| #[trigger] bits::has_bit(mask, i) <==> self.pending(i),
    {
        proof {
            bits::lemma_difference(self.expected_mask, self.retired_mask);
        }
        self.expected_mask & !self.retired_mask
    }

    pub fn is_complete(self) -> (yes: bool)
        ensures
            yes == self.complete(),
    {
        let mask: u8 = self.pending_mask();
        proof {
            bits::lemma_empty(mask);
            assert forall|i: int| mask == 0 && #[trigger] self.expects(i) implies self.retired(
                i,
            ) by {
                assert(!bits::has_bit(mask, i));
            }
            if mask != 0 {
                let i = choose|i: int| #[trigger] bits::has_bit(mask, i);
                assert(self.expects(i) && !self.retired(i));
            }
        }
        mask == 0
    }
}

#[derive(Debug, Clone, Copy, PartialEq, Eq, Structural)]
pub enum TeardownCommand {
    WithdrawOutput,
    EnterQuarantine,
    RetryDisable,
    ReleaseResources,
}

/// Pure public-lifetime/resource-ownership reducer for generalized teardown.
///
/// The host executes the initial commands in order, then reports confirmed member retirement.
/// A failed disable never republishes the output or releases resources; it emits only a scoped
/// retry command.
#[derive(Debug, Clone, Copy, PartialEq, Eq, Structural)]
pub struct GroupTeardownLifecycle {
    public: bool,
    retirement: MemberRetirement,
}

impl GroupTeardownLifecycle {
    /// The members and which of them are retired.
    pub closed spec fn members(self) -> MemberRetirement {
        self.retirement
    }

    /// Whether the output is visible.
    pub closed spec fn visible(self) -> bool {
        self.public
    }

    /// The output is withdrawn, and the members are tracked.
    pub open spec fn wf(self) -> bool {
        !self.visible() && self.members().wf()
    }

    pub fn begin(member_count: usize) -> (begun: (Self, [TeardownCommand; 2]))
        requires
            2 <= member_count <= MAX_GROUP_MEMBERS,
        ensures
            begun.0.wf(),
            forall|i: int| #[trigger] begun.0.members().expects(i) <==> 0 <= i < member_count,
            forall|i: int| !#[trigger] begun.0.members().retired(i),
            begun.1@ == seq![TeardownCommand::WithdrawOutput, TeardownCommand::EnterQuarantine],
    {
        let commands = [TeardownCommand::WithdrawOutput, TeardownCommand::EnterQuarantine];
        assert(commands@ =~= seq![
            TeardownCommand::WithdrawOutput,
            TeardownCommand::EnterQuarantine,
        ]);
        (
            GroupTeardownLifecycle {
                public: false,
                retirement: MemberRetirement::new(member_count),
            },
            commands,
        )
    }

    pub fn is_public(self) -> (public: bool)
        ensures
            public == self.visible(),
    {
        self.public
    }

    pub fn is_retired(self, member: usize) -> (yes: bool)
        requires
            self.wf(),
        ensures
            yes == self.members().retired(member as int),
    {
        self.retirement.is_retired(member)
    }

    pub fn pending_mask(self) -> (mask: u8)
        ensures
            forall|i: int| #[trigger] bits::has_bit(mask, i) <==> self.members().pending(i),
    {
        self.retirement.pending_mask()
    }

    /// Takes note of a retired member; resources are released once every member is retired.
    pub fn confirm_retired(&mut self, member: usize) -> (command: Option<TeardownCommand>)
        requires
            old(self).wf(),
        ensures
            final(self).wf(),
            old(self).members().expects(numbered(member)) ==> old(self).members().retires(
                final(self).members(),
                numbered(member),
            ),
            !old(self).members().expects(numbered(member)) ==> *final(self) == *old(self),
            command == (if old(self).members().expects(numbered(member))
                && final(self).members().complete() {
                Some(TeardownCommand::ReleaseResources)
            } else {
                None
            }),
    {
        if !self.retirement.confirm(member) {
            return None;
        }
        if self.retirement.is_complete() {
            Some(TeardownCommand::ReleaseResources)
        } else {
            None
        }
    }

    /// What follows a failed disable: only another try.
    pub fn disable_failed(self) -> (command: TeardownCommand)
        requires
            !self.visible(),
            !self.members().complete(),
        ensures
            command == TeardownCommand::RetryDisable,
    {
        TeardownCommand::RetryDisable
    }

    pub fn is_complete(self) -> (yes: bool)
        ensures
            yes == self.members().complete(),
    {
        self.retirement.is_complete()
    }
}

// ---------------------------------------------------------------------------------------------
// Laws
// ---------------------------------------------------------------------------------------------

/// Whether the states are those of retiring the members in the given order.
pub open spec fn retires_in_order(states: Seq<MemberRetirement>, order: Seq<int>) -> bool {
    &&& states.len() == order.len() + 1
    &&& forall|k: int|
        0 <= k < order.len() ==> (#[trigger] states[k]).retires(states[k + 1], order[k])
}

proof fn lemma_retired_prefix(states: Seq<MemberRetirement>, order: Seq<int>, k: int)
    requires
        retires_in_order(states, order),
        0 <= k <= order.len(),
        forall|i: int| !#[trigger] states[0].retired(i),
    ensures
        forall|i: int| #[trigger] states[k].expects(i) == states[0].expects(i),
        forall|i: int| #[trigger] states[k].retired(i) <==> order.take(k).contains(i),
    decreases k,
{
    if k == 0 {
        assert(order.take(0) =~= Seq::empty());
    } else {
        lemma_retired_prefix(states, order, k - 1);
        assert(states[k - 1].retires(states[k - 1 + 1], order[k - 1]));
        let prev = order.take(k - 1);
        let next = order.take(k);
        assert forall|i: int| #[trigger] states[k].retired(i) <==> next.contains(i) by {
            assert(states[k - 1].retired(i) <==> prev.contains(i));
            if prev.contains(i) {
                let j = choose|j: int| 0 <= j < prev.len() && prev[j] == i;
                assert(next[j] == i);
            }
            if next.contains(i) {
                let j = choose|j: int| 0 <= j < next.len() && next[j] == i;
                if j < k - 1 {
                    assert(prev[j] == i);
                }
            }
            assert(next[k - 1] == order[k - 1]);
        }
        assert forall|i: int| #[trigger] states[k].expects(i) == states[0].expects(i) by {
            assert(states[k - 1].expects(i) == states[0].expects(i));
        }
    }
}

/// Whichever order the members retire in, retirement is complete after the last of them and not
/// before: resources are released exactly once, and never while a member is still in use.
pub proof fn law_released_exactly_when_the_last_member_retires(
    states: Seq<MemberRetirement>,
    order: Seq<int>,
    member_count: nat,
    k: int,
)
    requires
        retires_in_order(states, order),
        forall|i: int| #[trigger] states[0].expects(i) <==> 0 <= i < member_count,
        forall|i: int| !#[trigger] states[0].retired(i),
        order.len() == member_count,
        order.no_duplicates(),
        forall|j: int| 0 <= j < order.len() ==> 0 <= #[trigger] order[j] < member_count,
        0 <= k <= order.len(),
    ensures
        states[k].complete() <==> k == member_count,
{
    lemma_retired_prefix(states, order, k);
    let all = vstd::set_lib::set_int_range(0, member_count as int);
    vstd::set_lib::lemma_int_range(0, member_count as int);
    let done = order.take(k);
    assert(done.no_duplicates());
    done.unique_seq_to_set();
    assert forall|i: int| done.to_set().contains(i) implies all.contains(i) by {
        let j = choose|j: int| 0 <= j < done.len() && done[j] == i;
        assert(order[j] == i);
    }
    assert(done.to_set().subset_of(all));
    if k == member_count {
        vstd::set_lib::lemma_subset_equality(done.to_set(), all);
        assert forall|i: int| #[trigger] states[k].expects(i) implies states[k].retired(i) by {
            assert(states[0].expects(i));
            assert(all.contains(i));
            assert(done.to_set().contains(i));
        }
    }
    if states[k].complete() {
        assert forall|i: int| all.contains(i) implies done.to_set().contains(i) by {
            assert(states[0].expects(i));
            assert(states[k].expects(i));
        }
        assert(done.to_set() =~= all);
    }
}

/// A member is awaited exactly when it is expected and has not retired; a group is retired exactly
/// when it awaits nobody.
pub proof fn law_awaited_members_are_those_not_yet_retired(
    before: MemberRetirement,
    after: MemberRetirement,
    member: int,
    other: int,
)
    requires
        before.wf(),
        before.expects(member),
        before.retires(after, member),
    ensures
        before.pending(other) <==> before.expects(other) && !before.retired(other),
        before.complete() <==> forall|i: int| #[trigger] before.expects(i) ==> !before.pending(i),
        after.retired(member),
        !after.pending(member),
        other != member ==> after.retired(other) == before.retired(other) && after.pending(other)
            == before.pending(other),
        after.expects(other) == before.expects(other),
        after.complete() <==> forall|i: int| #[trigger]
            before.expects(i) ==> before.retired(i) || i == member,
{
    if after.complete() {
        assert forall|i: int| #[trigger] before.expects(i) implies before.retired(i) || i
            == member by {
            assert(after.expects(i));
            assert(after.retired(i));
        }
    }
    if forall|i: int| #[trigger] before.expects(i) ==> before.retired(i) || i == member {
        assert forall|i: int| #[trigger] after.expects(i) implies after.retired(i) by {
            assert(before.expects(i));
        }
    }
    if before.complete() {
        assert forall|i: int| #[trigger] before.expects(i) implies !before.pending(i) by {
            assert(before.retired(i));
        }
    }
    if forall|i: int| #[trigger] before.expects(i) ==> !before.pending(i) {
        assert forall|i: int| #[trigger] before.expects(i) implies before.retired(i) by {
            assert(!before.pending(i));
        }
    }
}

/// Members are told apart by the low 32 bits of their number.
pub proof fn law_member_numbers_below_the_word_size_are_kept(member: usize)
    ensures
        member <= u32::MAX ==> numbered(member) == member,
        0 <= numbered(member) < 0x1_0000_0000,
{
}

} // verus!
