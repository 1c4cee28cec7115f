//! Submitting one frame to every member.

use vstd::prelude::*;

use crate::bits;
use crate::bits::member_bit;
use crate::layout::MAX_GROUP_MEMBERS;

verus! {

#[derive(Debug, Clone, Copy, PartialEq, Eq, Structural)]
pub struct GroupSubmission {
    pub submitted_mask: u8,
    pub partial_failure: bool,
}

/// The logical result of attempting to submit one display-group frame.
///
/// `PartialFailure` is deliberately distinct from `Complete`: members that were submitted still
/// need their completion events to retire their buffers, but the compositor must not report that
/// physically split frame as one successful logical presentation.
#[derive(Debug, Clone, Copy, PartialEq, Eq, Structural)]
pub enum GroupSubmissionOutcome {
    NoSubmission,
    Complete { submitted_mask: u8 },
    PartialFailure { submitted_mask: u8 },
}

impl GroupSubmission {
    /// The logical result.
    pub open spec fn result(self) -> GroupSubmissionOutcome {
        if self.submitted_mask == 0 {
            GroupSubmissionOutcome::NoSubmission
        } else if self.partial_failure {
            GroupSubmissionOutcome::PartialFailure { submitted_mask: self.submitted_mask }
        } else {
            GroupSubmissionOutcome::Complete { submitted_mask: self.submitted_mask }
        }
    }

    pub fn outcome(self) -> (outcome: GroupSubmissionOutcome)
        ensures
            outcome == self.result(),
    {
        if self.submitted_mask == 0 {
            GroupSubmissionOutcome::NoSubmission
        } else if self.partial_failure {
            GroupSubmissionOutcome::PartialFailure { submitted_mask: self.submitted_mask }
        } else {
            GroupSubmissionOutcome::Complete { submitted_mask: self.submitted_mask }
        }
    }
}

/// Whether the submission is what the members' answers amount to: `ready` says which members were
/// prepared, `sent` which of those were submitted.
pub open spec fn amounts_to(
    submission: GroupSubmission,
    ready: Seq<bool>,
    sent: Seq<bool>,
    n: int,
) -> bool {
    &&& forall|i: int| #[trigger]
        bits::has_bit(submission.submitted_mask, i) <==> 0 <= i < n && ready[i] && sent[i]
    &&& submission.partial_failure <==> exists|i: int| 0 <= i < n && #[trigger] ready[i] && !sent[i]
}

/// Whether the callbacks may have answered so for the first `n` members.
pub open spec fn answered<P: FnMut(usize) -> bool, S: FnMut(usize) -> bool>(
    prepared: P,
    submit: S,
    ready: Seq<bool>,
    sent: Seq<bool>,
    n: int,
) -> bool {
    &&& ready.len() == n
    &&& sent.len() == n
    &&& forall|i: int| 0 <= i < n ==> call_ensures(prepared, (i as usize,), #[trigger] ready[i])
    &&& forall|i: int|
        0 <= i < n && #[trigger] ready[i] ==> call_ensures(submit, (i as usize,), sent[i])
}

proof fn lemma_one_more(
    submission: GroupSubmission,
    ready: Seq<bool>,
    sent: Seq<bool>,
    n: int,
    is_ready: bool,
    is_sent: bool,
)
    requires
        0 <= n < MAX_GROUP_MEMBERS,
        ready.len() == n,
        sent.len() == n,
        amounts_to(submission, ready, sent, n),
    ensures
        amounts_to(
            with_member(submission, n, is_ready, is_sent),
            ready.push(is_ready),
            sent.push(is_sent),
            n + 1,
        ),
{
    let next = with_member(submission, n, is_ready, is_sent);
    let ready_now = ready.push(is_ready);
    let sent_now = sent.push(is_sent);
    let bit = 1u8 << (n as u8);
    bits::lemma_union(submission.submitted_mask, bit);
    bits::lemma_bit(n);
    assert forall|i: int| #[trigger] bits::has_bit(next.submitted_mask, i) <==> 0 <= i < n + 1
        && ready_now[i] && sent_now[i] by {
        assert(bits::has_bit(submission.submitted_mask, i) <==> 0 <= i < n && ready[i] && sent[i]);
    }
    if submission.partial_failure {
        let i = choose|i: int| 0 <= i < n && #[trigger] ready[i] && !sent[i];
        assert(ready_now[i] && !sent_now[i]);
    }
    assert(ready_now[n] == is_ready);
    if exists|i: int| 0 <= i < n + 1 && #[trigger] ready_now[i] && !sent_now[i] {
        let i = choose|i: int| 0 <= i < n + 1 && #[trigger] ready_now[i] && !sent_now[i];
        if i < n {
            assert(ready[i] && !sent[i]);
        }
    }
}

/// The submission after one more member.
pub open spec fn with_member(
    submission: GroupSubmission,
    member: int,
    is_ready: bool,
    is_sent: bool,
) -> GroupSubmission {
    if !is_ready {
        submission
    } else if is_sent {
        GroupSubmission {
            submitted_mask: submission.submitted_mask | (1u8 << (member as u8)),
            ..submission
        }
    } else {
        GroupSubmission { partial_failure: true, ..submission }
    }
}

/// What is to be done next for a frame.
#[derive(Debug, Clone, Copy, PartialEq, Eq, Structural)]
pub enum SubmissionStep {
    /// Ask whether the member is prepared.
    AskPrepared { member: usize },
    /// Submit the member.
    Submit { member: usize },
    /// Every member had its turn.
    Finished { submission: GroupSubmission },
}

/// The submission of one frame: which step comes next, given how the earlier ones went.
#[derive(Debug, Clone, Copy, PartialEq, Eq, Structural)]
pub struct SubmissionRun {
    member_count: usize,
    member: usize,
    prepared: bool,
    submission: GroupSubmission,
}

/// The state of a run.
pub struct RunView {
    pub member_count: int,
    /// The member whose turn it is.
    pub member: int,
    /// Whether that member is prepared.
    pub prepared: bool,
    /// What the members before it amount to.
    pub submission: GroupSubmission,
}

impl View for SubmissionRun {
    type V = RunView;

    closed spec fn view(&self) -> RunView {
        RunView {
            member_count: self.member_count as int,
            member: self.member as int,
            prepared: self.prepared,
            submission: self.submission,
        }
    }
}

impl RunView {
    /// The state before the first step.
    pub open spec fn start(member_count: int) -> RunView {
        RunView {
            member_count,
            member: 0,
            prepared: false,
            submission: GroupSubmission { submitted_mask: 0, partial_failure: false },
        }
    }

    pub open spec fn wf(self) -> bool {
        0 <= self.member <= self.member_count <= MAX_GROUP_MEMBERS
    }

    /// The next step.
    pub open spec fn step(self) -> SubmissionStep {
        if self.member >= self.member_count {
            SubmissionStep::Finished { submission: self.submission }
        } else if self.prepared {
            SubmissionStep::Submit { member: self.member as usize }
        } else {
            SubmissionStep::AskPrepared { member: self.member as usize }
        }
    }

    /// The state after the next step went so.
    pub open spec fn after(self, yes: bool) -> RunView {
        if self.member >= self.member_count {
            self
        } else if !self.prepared && yes {
            RunView { prepared: true, ..self }
        } else {
            RunView {
                member: self.member + 1,
                prepared: false,
                submission: with_member(self.submission, self.member, self.prepared, yes),
                ..self
            }
        }
    }
}

impl SubmissionRun {
    /// Starts the submission of a frame.
    pub fn new(member_count: usize) -> (run: Self)
        requires
            member_count <= MAX_GROUP_MEMBERS,
        ensures
            run@ == RunView::start(member_count as int),
            run@.wf(),
    {
        SubmissionRun {
            member_count,
            member: 0,
            prepared: false,
            submission: GroupSubmission { submitted_mask: 0, partial_failure: false },
        }
    }

    /// What is to be done next.
    pub fn step(&self) -> (step: SubmissionStep)
        ensures
            step == self@.step(),
    {
        if self.member >= self.member_count {
            SubmissionStep::Finished { submission: self.submission }
        } else if self.prepared {
            SubmissionStep::Submit { member: self.member }
        } else {
            SubmissionStep::AskPrepared { member: self.member }
        }
    }

    /// Notes how the step went: whether the member is prepared, or whether it was submitted.
    pub fn answer(&mut self, yes: bool)
        requires
            old(self)@.wf(),
        ensures
            final(self)@ == old(self)@.after(yes),
            final(self)@.wf(),
    {
        if self.member >= self.member_count {
            return ;
        }
        if !self.prepared && yes {
            self.prepared = true;
            return ;
        }
        if self.prepared {
            if yes {
                self.submission.submitted_mask =
                self.submission.submitted_mask | member_bit(self.member as u32);
            } else {
                self.submission.partial_failure = true;
            }
        }
        self.prepared = false;
        self.member = self.member + 1;
    }
}

/// Submits every prepared member in index order, and no other, and records partial failure
/// explicitly. The steps are those of [`SubmissionRun`].
///
/// Rendering/KMS integration supplies the callbacks; `submit` is only called for a member that
/// `prepared` answered for.
pub fn submit_prepared_members<P: FnMut(usize) -> bool, S: FnMut(usize) -> bool>(
    member_count: usize,
    mut prepared: P,
    mut submit: S,
) -> (submission: GroupSubmission)
    requires
        member_count <= MAX_GROUP_MEMBERS,
        forall|m: usize| m < member_count ==> call_requires(prepared, (m,)),
        forall|m: usize|
            m < member_count && call_ensures(prepared, (m,), true) ==> call_requires(submit, (m,)),
    ensures
        exists|ready: Seq<bool>, sent: Seq<bool>|
            answered(prepared, submit, ready, sent, member_count as int) && #[trigger] amounts_to(
                submission,
                ready,
                sent,
                member_count as int,
            ),
{
    let mut run = SubmissionRun::new(member_count);
    let ghost mut ready: Seq<bool> = Seq::empty();
    let ghost mut sent: Seq<bool> = Seq::empty();
    let ghost first_prepared = prepared;
    let ghost first_submit = submit;
    proof {
        bits::lemma_empty(0);
    }
    let mut done = GroupSubmission { submitted_mask: 0, partial_failure: false };
    loop
        invariant
            member_count <= MAX_GROUP_MEMBERS,
            forall|m: usize| m < member_count ==> call_requires(prepared, (m,)),
            forall|m: usize|
                m < member_count && call_ensures(prepared, (m,), true) ==> call_requires(
                    submit,
                    (m,),
                ),
            prepared == first_prepared,
            submit == first_submit,
            run@.wf(),
            run@.member_count == member_count,
            run@.prepared ==> run@.member < member_count && call_ensures(
                prepared,
                (run@.member as usize,),
                true,
            ),
            answered(prepared, submit, ready, sent, run@.member),
            amounts_to(run@.submission, ready, sent, run@.member),
        ensures
            run@.member == member_count,
            done == run@.submission,
        decreases
                2 * (run@.member_count - run@.member) - (if run@.prepared {
                    1int
                } else {
                    0int
                }),
    {
        let ghost before = run@;
        match run.step() {
            SubmissionStep::AskPrepared { member } => {
                let yes = prepared(member);
                run.answer(yes);
                proof {
                    if !yes {
                        lemma_one_more(
                            before.submission,
                            ready,
                            sent,
                            before.member,
                            false,
                            false,
                        );
                        ready = ready.push(false);
                        sent = sent.push(false);
                    }
                }
            },
            SubmissionStep::Submit { member } => {
                let yes = submit(member);
                run.answer(yes);
                proof {
                    lemma_one_more(before.submission, ready, sent, before.member, true, yes);
                    ready = ready.push(true);
                    sent = sent.push(yes);
                }
            },
            SubmissionStep::Finished { submission } => {
                done = submission;
                break ;
            },
        }
    }
    done
}

// ---------------------------------------------------------------------------------------------
// Laws
// ---------------------------------------------------------------------------------------------

/// The steps that a frame takes where `ready` says which of the first `n` members are prepared:
/// each member is asked once, in index order, and submitted right then if it is prepared.
pub open spec fn expected_steps(ready: Seq<bool>, n: int) -> Seq<SubmissionStep>
    decreases n,
{
    if n <= 0 {
        Seq::empty()
    } else {
        let asked = expected_steps(ready, n - 1).push(
            SubmissionStep::AskPrepared { member: (n - 1) as usize },
        );
        if ready[n - 1] {
            asked.push(SubmissionStep::Submit { member: (n - 1) as usize })
        } else {
            asked
        }
    }
}

/// How these steps go where `sent` says which of the prepared members are submitted.
pub open spec fn step_answers(ready: Seq<bool>, sent: Seq<bool>, n: int) -> Seq<bool>
    decreases n,
{
    if n <= 0 {
        Seq::empty()
    } else {
        let asked = step_answers(ready, sent, n - 1).push(ready[n - 1]);
        if ready[n - 1] {
            asked.push(sent[n - 1])
        } else {
            asked
        }
    }
}

/// The state after the given answers.
pub open spec fn state_after(member_count: int, answers: Seq<bool>) -> RunView
    decreases answers.len(),
{
    if answers.len() == 0 {
        RunView::start(member_count)
    } else {
        state_after(member_count, answers.drop_last()).after(answers.last())
    }
}

proof fn lemma_turns(member_count: int, ready: Seq<bool>, sent: Seq<bool>, n: int)
    requires
        0 <= n <= member_count <= MAX_GROUP_MEMBERS,
        ready.len() == member_count,
        sent.len() == member_count,
    ensures
        expected_steps(ready, n).len() == step_answers(ready, sent, n).len(),
        forall|j: int|
            0 <= j < expected_steps(ready, n).len() ==> state_after(
                member_count,
                step_answers(ready, sent, n).take(j),
            ).step() == #[trigger] expected_steps(ready, n)[j],
        ({
            let state = state_after(member_count, step_answers(ready, sent, n));
            &&& state.member_count == member_count
            &&& state.member == n
            &&& !state.prepared
            &&& amounts_to(state.submission, ready.take(n), sent.take(n), n)
        }),
    decreases n,
{
    if n <= 0 {
        bits::lemma_empty(0);
    } else {
        let m = n - 1;
        lemma_turns(member_count, ready, sent, m);
        let steps = expected_steps(ready, m);
        let answers = step_answers(ready, sent, m);
        let all_steps = expected_steps(ready, n);
        let all = step_answers(ready, sent, n);
        let state = state_after(member_count, answers);
        let asked = answers.push(ready[m]);
        assert(asked.drop_last() =~= answers);
        assert(state_after(member_count, asked) == state.after(ready[m]));
        if ready[m] {
            assert(all.drop_last() =~= asked);
        }
        assert forall|j: int| 0 <= j < all_steps.len() implies state_after(
            member_count,
            all.take(j),
        ).step() == #[trigger] all_steps[j] by {
            if j < steps.len() {
                assert(all.take(j) =~= answers.take(j));
                assert(steps[j] == all_steps[j]);
            } else if j == steps.len() {
                assert(all.take(j) =~= answers);
            } else {
                assert(all.take(j) =~= asked);
            }
        }
        assert(ready.take(n) =~= ready.take(m).push(ready[m]));
        lemma_one_more(state.submission, ready.take(m), sent.take(m), m, ready[m], sent[m]);
        assert(sent.take(n) =~= sent.take(m).push(sent[m]));
    }
}

/// Whatever the members answer, each is asked exactly once, in index order; exactly those that are
/// prepared are submitted, each once and in index order, also after an earlier failure; and the
/// frame ends with the submission that the answers amount to.
pub proof fn law_prepared_members_are_submitted_in_order(
    member_count: int,
    ready: Seq<bool>,
    sent: Seq<bool>,
)
    requires
        0 <= member_count <= MAX_GROUP_MEMBERS,
        ready.len() == member_count,
        sent.len() == member_count,
    ensures
        ({
            let steps = expected_steps(ready, member_count);
            let answers = step_answers(ready, sent, member_count);
            &&& steps.len() == answers.len()
            &&& forall|j: int|
                0 <= j < steps.len() ==> state_after(member_count, answers.take(j)).step()
                    == #[trigger] steps[j]
            &&& state_after(member_count, answers).step() matches SubmissionStep::Finished {
                submission,
            } && amounts_to(submission, ready, sent, member_count)
        }),
{
    lemma_turns(member_count, ready, sent, member_count);
    assert(ready.take(member_count) =~= ready);
    assert(sent.take(member_count) =~= sent);
}

/// A frame counts as complete exactly when some member was prepared and every prepared member was
/// submitted, and as not submitted exactly when no member was.
pub proof fn law_outcome_is_truthful(
    submission: GroupSubmission,
    ready: Seq<bool>,
    sent: Seq<bool>,
    n: int,
)
    requires
        n <= MAX_GROUP_MEMBERS,
        amounts_to(submission, ready, sent, n),
    ensures
        submission.result() is NoSubmission <==> (forall|i: int|
            0 <= i < n && #[trigger] ready[i] ==> !sent[i]),
        submission.result() is Complete <==> (exists|i: int| 0 <= i < n && #[trigger] ready[i])
            && (forall|i: int| 0 <= i < n && #[trigger] ready[i] ==> sent[i]),
{
    let mask = submission.submitted_mask;
    bits::lemma_empty(mask);
    if mask == 0 {
        assert forall|i: int| 0 <= i < n && #[trigger] ready[i] implies !sent[i] by {
            assert(!bits::has_bit(mask, i));
        }
    } else {
        let i = choose|i: int| #[trigger] bits::has_bit(mask, i);
        assert(ready[i] && sent[i]);
    }
}

/// What was submitted is reported as it is: nothing where no member was submitted to, and otherwise
/// the members that were, as complete exactly when none failed.
pub proof fn law_outcomes_report_the_submitted_members(submission: GroupSubmission)
    ensures
        submission.submitted_mask == 0 <==> submission.result() is NoSubmission,
        submission.submitted_mask != 0 && !submission.partial_failure ==> submission.result()
            == (GroupSubmissionOutcome::Complete { submitted_mask: submission.submitted_mask }),
        submission.submitted_mask != 0 && submission.partial_failure ==> submission.result()
            == (GroupSubmissionOutcome::PartialFailure {
            submitted_mask: submission.submitted_mask,
        }),
{
}

/// A member counts as submitted to exactly when it was ready and its submission succeeded, and a
/// frame as partly failed exactly when some ready member's submission did not.
pub proof fn law_submissions_amount_to_what_succeeded(
    submission: GroupSubmission,
    ready: Seq<bool>,
    sent: Seq<bool>,
    n: int,
    i: int,
)
    requires
        amounts_to(submission, ready, sent, n),
        0 <= i < n,
    ensures
        bits::has_bit(submission.submitted_mask, i) <==> ready[i] && sent[i],
        ready[i] && !sent[i] ==> submission.partial_failure,
        submission.partial_failure ==> exists|k: int|
            0 <= k < n && #[trigger] ready[k] && !sent[k],
{
}

/// A member that is not ready changes nothing, one whose submission succeeds is added to those
/// submitted to, and one whose submission fails marks the frame as partly failed.
pub proof fn law_each_member_adds_its_own_outcome(
    submission: GroupSubmission,
    member: int,
    is_ready: bool,
    is_sent: bool,
    other: int,
)
    requires
        0 <= member < 8,
    ensures
        ({
            let after = with_member(submission, member, is_ready, is_sent);
            &&& bits::has_bit(after.submitted_mask, other) <==> bits::has_bit(
                submission.submitted_mask,
                other,
            ) || (other == member && is_ready && is_sent)
            &&& after.partial_failure <==> submission.partial_failure || (is_ready && !is_sent)
        }),
{
    bits::lemma_bit(member);
    bits::lemma_union(submission.submitted_mask, 1u8 << (member as u8));
}

} // verus!
