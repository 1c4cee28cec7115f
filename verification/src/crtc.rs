//! Ordering of completion events per CRTC.

use std::collections::VecDeque;

use vstd::prelude::*;

verus! {

/// Identity and predicted sequence floor for one queued CRTC submission.
#[derive(Debug, Clone, Copy, PartialEq, Eq, Structural)]
pub struct CrtcSubmissionId {
    pub generation: u64,
    pub sequence_floor: u32,
}

/// A submission whose event has not arrived.
#[derive(Debug, Clone, Copy, PartialEq, Eq, Structural)]
pub struct QueuedCrtcSubmission {
    pub id: CrtcSubmissionId,
    pub drain: bool,
}

/// Classification made before touching compositor state for a CRTC event.
#[derive(Debug, Clone, Copy, PartialEq, Eq, Structural)]
pub enum CrtcEventClassification {
    Reject,
    Retire { submission: CrtcSubmissionId, drain: bool, current_generation: bool },
}

/// Persistent per-CRTC event ordering across standalone/group ownership transitions.
///
/// Queued submissions survive generation changes so a delayed event can retire the exact old
/// frame without ever being mistaken for a newer group frame. Replacing the underlying
/// compositor marks old submissions as no-drain: their kernel events still advance the sequence
/// baseline, but must not mutate the replacement compositor.
#[derive(Debug)]
pub struct CrtcEventTracker {
    generation: u64,
    last_sequence: Option<u32>,
    queued: VecDeque<QueuedCrtcSubmission>,
}

/// The contents of a tracker.
pub struct TrackerView {
    pub generation: u64,
    pub last_sequence: Option<u32>,
    /// Oldest first.
    pub queued: Seq<QueuedCrtcSubmission>,
}

impl View for CrtcEventTracker {
    type V = TrackerView;

    closed spec fn view(&self) -> TrackerView {
        TrackerView {
            generation: self.generation,
            last_sequence: self.last_sequence,
            queued: self.queued@,
        }
    }
}

/// The generation that follows; zero is never used.
pub open spec fn following(generation: u64) -> u64 {
    if generation == u64::MAX {
        1
    } else {
        (generation + 1) as u64
    }
}

/// How far `sequence` lies behind `floor`, counting up with wraparound.
pub open spec fn distance(floor: u32, sequence: u32) -> int {
    (sequence - floor) % 0x1_0000_0000
}

/// Whether a sequence number is at or after a floor: within half the number range.
pub open spec fn reaches(floor: u32, sequence: u32) -> bool {
    distance(floor, sequence) < 0x8000_0000
}

impl TrackerView {
    /// The generation of the next submission.
    pub open spec fn submitting_generation(self) -> u64 {
        if self.generation == 0 {
            1
        } else {
            self.generation
        }
    }

    /// The sequence number that the next submission can complete with at the earliest.
    pub open spec fn next_floor(self) -> u32 {
        let base = match self.last_sequence {
            Some(s) => s + 1,
            None => 0,
        };
        ((base + self.queued.len()) % 0x1_0000_0000) as u32
    }

    /// The state after one more submission.
    pub open spec fn enqueued(self) -> TrackerView {
        TrackerView {
            generation: self.submitting_generation(),
            last_sequence: self.last_sequence,
            queued: self.queued.push(
                QueuedCrtcSubmission {
                    id: CrtcSubmissionId {
                        generation: self.submitting_generation(),
                        sequence_floor: self.next_floor(),
                    },
                    drain: true,
                },
            ),
        }
    }

    /// The first of the first `n` queued submissions with the given identity.
    pub open spec fn position(self, submission: CrtcSubmissionId, n: int) -> Option<int>
        decreases n,
    {
        if n <= 0 {
            None
        } else {
            match self.position(submission, n - 1) {
                Some(i) => Some(i),
                None => if self.queued[n - 1].id == submission {
                    Some(n - 1)
                } else {
                    None
                },
            }
        }
    }

    /// The state without the first queued submission that has the given identity.
    pub open spec fn cancelled(self, submission: CrtcSubmissionId) -> TrackerView {
        match self.position(submission, self.queued.len() as int) {
            Some(i) => TrackerView { queued: self.queued.remove(i), ..self },
            None => self,
        }
    }

    /// The queue with nothing to be drained.
    pub open spec fn undrained(self) -> Seq<QueuedCrtcSubmission> {
        Seq::new(
            self.queued.len(),
            |i: int| QueuedCrtcSubmission { id: self.queued[i].id, drain: false },
        )
    }

    /// The state in another generation.
    pub open spec fn in_generation(self, generation: u64) -> TrackerView {
        TrackerView { generation, ..self }
    }

    /// The state in another generation, with nothing to be drained.
    pub open spec fn replaced(self, generation: u64) -> TrackerView {
        TrackerView {
            generation,
            last_sequence: self.last_sequence,
            queued: self.undrained(),
        }
    }

    /// What an event with the given sequence number means.
    pub open spec fn classified(self, sequence: u32) -> CrtcEventClassification {
        if self.queued.len() == 0 || !reaches(self.queued[0].id.sequence_floor, sequence) {
            CrtcEventClassification::Reject
        } else {
            CrtcEventClassification::Retire {
                submission: self.queued[0].id,
                drain: self.queued[0].drain,
                current_generation: self.queued[0].id.generation == self.generation,
            }
        }
    }

    /// Whether the submission is the oldest queued one.
    pub open spec fn oldest_is(self, submission: CrtcSubmissionId) -> bool {
        self.queued.len() > 0 && self.queued[0].id == submission
    }

    /// The state after the oldest submission completed.
    pub open spec fn completed(self, sequence: u32) -> TrackerView {
        TrackerView {
            generation: self.generation,
            last_sequence: Some(sequence),
            queued: self.queued.drop_first(),
        }
    }
}

impl Default for CrtcEventTracker {
    fn default() -> (tracker: Self)
        ensures
            tracker@.generation == 0,
            tracker@.last_sequence is None,
            tracker@.queued == Seq::<QueuedCrtcSubmission>::empty(),
    {
        CrtcEventTracker { generation: 0, last_sequence: None, queued: VecDeque::new() }
    }
}

proof fn lemma_position(view: TrackerView, submission: CrtcSubmissionId, n: int)
    requires
        0 <= n <= view.queued.len(),
    ensures
        match view.position(submission, n) {
            Some(i) => 0 <= i < n && view.queued[i].id == submission,
            None => forall|i: int| 0 <= i < n ==> (#[trigger] view.queued[i]).id != submission,
        },
    decreases n,
{
    if n > 0 {
        lemma_position(view, submission, n - 1);
    }
}

proof fn lemma_position_stays(view: TrackerView, submission: CrtcSubmissionId, k: int, n: int)
    requires
        0 <= k <= n,
        view.position(submission, k) is Some,
    ensures
        view.position(submission, n) == view.position(submission, k),
    decreases n - k,
{
    if k < n {
        lemma_position_stays(view, submission, k, n - 1);
    }
}

impl CrtcEventTracker {
    pub fn begin_generation(&mut self) -> (generation: u64)
        ensures
            generation == following(old(self)@.generation),
            final(self)@ == old(self)@.in_generation(generation),
    {
        self.generation = if self.generation == u64::MAX {
            1
        } else {
            self.generation + 1
        };
        self.generation
    }

    pub fn generation(&self) -> (generation: u64)
        ensures
            generation == self@.generation,
    {
        self.generation
    }

    /// Queues a submission and predicts the earliest sequence number of its event.
    pub fn enqueue(&mut self) -> (id: CrtcSubmissionId)
        ensures
            final(self)@ == old(self)@.enqueued(),
            id == final(self)@.queued.last().id,
    {
        if self.generation == 0 {
            self.begin_generation();
        }
        let base: u64 = match self.last_sequence {
            Some(sequence) => sequence as u64 + 1,
            None => 0,
        };
        let ahead: u64 = self.queued.len() as u64 % 0x1_0000_0000;
        let sequence_floor: u32 = ((base + ahead) % 0x1_0000_0000) as u32;
        let id = CrtcSubmissionId { generation: self.generation, sequence_floor };
        self.queued.push_back(QueuedCrtcSubmission { id, drain: true });
        assert(self@.queued =~= old(self)@.enqueued().queued);
        id
    }

    /// Forgets a submission that was never made; returns whether it was queued.
    pub fn cancel(&mut self, submission: CrtcSubmissionId) -> (known: bool)
        ensures
            final(self)@ == old(self)@.cancelled(submission),
            known == (exists|i: int|
                0 <= i < old(self)@.queued.len() && (#[trigger] old(self)@.queued[i]).id
                    == submission),
    {
        let ghost start = self@;
        let count: usize = self.queued.len();
        for i in 0..count
            invariant
                count == start.queued.len(),
                start == self@,
                self == old(self),
                start.position(submission, i as int) is None,
        {
            if self.queued[i].id == submission {
                proof {
                    assert(start.queued[i as int].id == submission);
                    assert(start.position(submission, i + 1) == Some(i as int));
                    lemma_position_stays(start, submission, i + 1, start.queued.len() as int);
                }
                let _ = self.queued.remove(i);
                assert(self@.queued =~= start.cancelled(submission).queued);
                return true;
            }
        }
        proof {
            lemma_position(start, submission, start.queued.len() as int);
        }
        false
    }

    /// Begins a generation with another compositor, which nothing queued so far may drain into.
    pub fn replace_compositor(&mut self) -> (generation: u64)
        ensures
            generation == following(old(self)@.generation),
            final(self)@ == old(self)@.replaced(generation),
    {
        let ghost start = self@;
        let mut kept: VecDeque<QueuedCrtcSubmission> = VecDeque::new();
        for i in 0..self.queued.len()
            invariant
                start == self@,
                kept@.len() == i,
                forall|k: int| 0 <= k < i ==> #[trigger] kept@[k] == start.undrained()[k],
        {
            assert(self.queued@[i as int] == start.queued[i as int]);
            kept.push_back(QueuedCrtcSubmission { id: self.queued[i].id, drain: false });
        }
        self.queued = kept;
        assert(self.queued@ =~= start.undrained());
        self.begin_generation()
    }

    pub fn classify(&self, sequence: u32) -> (class: CrtcEventClassification)
        ensures
            class == self@.classified(sequence),
    {
        if self.queued.len() == 0 {
            return CrtcEventClassification::Reject;
        }
        let queued = self.queued[0];
        if sequence.wrapping_sub(queued.id.sequence_floor) >= 0x8000_0000 {
            return CrtcEventClassification::Reject;
        }
        CrtcEventClassification::Retire {
            submission: queued.id,
            drain: queued.drain,
            current_generation: queued.id.generation == self.generation,
        }
    }

    /// Takes the oldest submission off the queue, if it is the given one.
    pub fn retired(&mut self, submission: CrtcSubmissionId, sequence: u32) -> (done: bool)
        ensures
            done == old(self)@.oldest_is(submission),
            final(self)@ == (if done {
                old(self)@.completed(sequence)
            } else {
                old(self)@
            }),
    {
        if self.queued.len() == 0 {
            return false;
        }
        if self.queued[0].id != submission {
            return false;
        }
        let _ = self.queued.pop_front();
        self.last_sequence = Some(sequence);
        assert(self@.queued =~= old(self)@.queued.drop_first());
        true
    }

    pub fn last_sequence(&self) -> (sequence: Option<u32>)
        ensures
            sequence == self@.last_sequence,
    {
        self.last_sequence
    }
}

// ---------------------------------------------------------------------------------------------
// Laws
// ---------------------------------------------------------------------------------------------

/// Whether nothing queued is newer than the tracker's generation.
pub open spec fn generations_bounded(view: TrackerView) -> bool {
    forall|i: int|
        0 <= i < view.queued.len() ==> (#[trigger] view.queued[i]).id.generation <= view.generation
}

/// Queueing, cancelling and completing keep the queue free of submissions from the future, as does
/// beginning a generation until the generation numbers are used up.
pub proof fn law_queued_generations_stay_bounded(
    view: TrackerView,
    submission: CrtcSubmissionId,
    sequence: u32,
)
    requires
        generations_bounded(view),
    ensures
        generations_bounded(view.enqueued()),
        generations_bounded(view.cancelled(submission)),
        view.queued.len() > 0 ==> generations_bounded(view.completed(sequence)),
        view.generation < u64::MAX ==> generations_bounded(
            view.replaced(following(view.generation)),
        ),
        view.generation < u64::MAX ==> generations_bounded(
            view.in_generation(following(view.generation)),
        ),
{
    let queued = view.queued;
    let added = view.enqueued().queued;
    assert forall|i: int| 0 <= i < added.len() implies (#[trigger] added[i]).id.generation
        <= view.enqueued().generation by {
        if i < queued.len() {
            assert(added[i] == queued[i]);
        }
    }
    lemma_position(view, submission, queued.len() as int);
    let left = view.cancelled(submission).queued;
    if let Some(p) = view.position(submission, queued.len() as int) {
        assert forall|i: int| 0 <= i < left.len() implies (#[trigger] left[i]).id.generation
            <= view.generation by {
            if i < p {
                assert(left[i] == queued[i]);
            } else {
                assert(left[i] == queued[i + 1]);
            }
        }
    }
    if queued.len() > 0 {
        let rest = view.completed(sequence).queued;
        assert forall|i: int| 0 <= i < rest.len() implies (#[trigger] rest[i]).id.generation
            <= view.generation by {
            assert(rest[i] == queued[i + 1]);
        }
    }
    assert forall|i: int| 0 <= i < view.undrained().len() implies (
    #[trigger] view.undrained()[i]).id.generation <= view.generation by {
        assert(view.undrained()[i].id == queued[i].id);
    }
}

/// One thing that happens to a tracker.
pub enum TrackerStep {
    Enqueue,
    Cancel { submission: CrtcSubmissionId },
    /// The oldest submission completes.
    Complete { sequence: u32 },
    BeginGeneration,
    ReplaceCompositor,
}

/// The state after one step.
pub open spec fn stepped(view: TrackerView, step: TrackerStep) -> TrackerView {
    match step {
        TrackerStep::Enqueue => view.enqueued(),
        TrackerStep::Cancel { submission } => view.cancelled(submission),
        TrackerStep::Complete { sequence } => if view.queued.len() > 0 {
            view.completed(sequence)
        } else {
            view
        },
        TrackerStep::BeginGeneration => view.in_generation(following(view.generation)),
        TrackerStep::ReplaceCompositor => view.replaced(following(view.generation)),
    }
}

/// The state after a sequence of steps.
pub open spec fn state_after(view: TrackerView, steps: Seq<TrackerStep>) -> TrackerView
    decreases steps.len(),
{
    if steps.len() == 0 {
        view
    } else {
        stepped(state_after(view, steps.drop_last()), steps.last())
    }
}

/// Whether no step begins another generation.
pub open spec fn same_generation(steps: Seq<TrackerStep>) -> bool {
    forall|i: int|
        0 <= i < steps.len() ==> !(#[trigger] steps[i] is BeginGeneration)
            && !(steps[i] is ReplaceCompositor)
}

/// Whether submissions of generation `past` or earlier are recognized as old, and where `undrained`
/// says so, not drained either.
spec fn past_is_past(view: TrackerView, past: u64, undrained: bool) -> bool {
    &&& past < view.generation
    &&& generations_bounded(view)
    &&& undrained ==> forall|i: int|
        0 <= i < view.queued.len() && (#[trigger] view.queued[i]).id.generation <= past
            ==> !view.queued[i].drain
}

/// Whether submissions later than `past` are drained and current.
spec fn rest_is_current(view: TrackerView, past: u64) -> bool {
    forall|i: int|
        0 <= i < view.queued.len() && (#[trigger] view.queued[i]).id.generation > past
            ==> view.queued[i].drain && view.queued[i].id.generation == view.generation
}

proof fn lemma_step_keeps_past(view: TrackerView, step: TrackerStep, past: u64, undrained: bool)
    requires
        past_is_past(view, past, undrained),
        view.generation < u64::MAX,
    ensures
        past_is_past(stepped(view, step), past, undrained),
        stepped(view, step).generation <= view.generation + 1,
        !(step is BeginGeneration) && !(step is ReplaceCompositor) ==> {
            &&& stepped(view, step).generation == view.generation
            &&& rest_is_current(view, past) ==> rest_is_current(stepped(view, step), past)
        },
{
    let after = stepped(view, step);
    let queued = view.queued;
    match step {
        TrackerStep::Cancel { submission } => {
            lemma_position(view, submission, queued.len() as int);
            law_queued_generations_stay_bounded(view, submission, 0);
            if let Some(p) = view.position(submission, queued.len() as int) {
                assert forall|i: int| 0 <= i < after.queued.len() implies #[trigger] after.queued[i]
                    == queued[if i < p {
                    i
                } else {
                    i + 1
                }] by {}
            }
        },
        TrackerStep::Complete { sequence } => {
            if queued.len() > 0 {
                assert forall|i: int| 0 <= i < after.queued.len() implies #[trigger] after.queued[i]
                    == queued[i + 1] by {}
            }
        },
        TrackerStep::Enqueue => {
            assert forall|i: int| 0 <= i < queued.len() implies #[trigger] after.queued[i]
                == queued[i] by {}
        },
        TrackerStep::BeginGeneration => {},
        TrackerStep::ReplaceCompositor => {
            assert forall|i: int| 0 <= i < after.queued.len() implies (
            #[trigger] after.queued[i]).id == queued[i].id && !after.queued[i].drain by {}
        },
    }
}

proof fn lemma_steps_keep_past(
    view: TrackerView,
    steps: Seq<TrackerStep>,
    past: u64,
    undrained: bool,
)
    requires
        past_is_past(view, past, undrained),
        view.generation + steps.len() <= u64::MAX,
    ensures
        past_is_past(state_after(view, steps), past, undrained),
        state_after(view, steps).generation <= view.generation + steps.len(),
        same_generation(steps) ==> {
            &&& state_after(view, steps).generation == view.generation
            &&& rest_is_current(view, past) ==> rest_is_current(state_after(view, steps), past)
        },
    decreases steps.len(),
{
    if steps.len() > 0 {
        let before = steps.drop_last();
        lemma_steps_keep_past(view, before, past, undrained);
        lemma_step_keeps_past(state_after(view, before), steps.last(), past, undrained);
        if same_generation(steps) {
            assert forall|i: int| 0 <= i < before.len() implies !(
            #[trigger] before[i] is BeginGeneration) && !(before[i] is ReplaceCompositor) by {
                assert(before[i] == steps[i]);
            }
            assert(steps[steps.len() - 1] == steps.last());
        }
    }
}

/// A submission from before a generation began is never taken for one of a later generation,
/// whatever is queued, cancelled, completed or begun until it retires and the generation numbers
/// are not used up.
pub proof fn law_old_submissions_are_never_current(
    view: TrackerView,
    steps: Seq<TrackerStep>,
    sequence: u32,
)
    requires
        generations_bounded(view),
        view.generation + 1 + steps.len() <= u64::MAX,
    ensures
        match state_after(view.in_generation(following(view.generation)), steps).classified(
            sequence,
        ) {
            CrtcEventClassification::Reject => true,
            CrtcEventClassification::Retire { submission, drain, current_generation } =>
            submission.generation <= view.generation ==> !current_generation,
        },
{
    let begun = view.in_generation(following(view.generation));
    let any = CrtcSubmissionId { generation: 0, sequence_floor: 0 };
    law_queued_generations_stay_bounded(view, any, 0);
    lemma_steps_keep_past(begun, steps, view.generation, false);
}

/// Replacing the compositor begins the next generation and keeps the order and the predictions of
/// what is queued. Whatever happens afterwards until the generation numbers are used up, an event
/// that retires a submission queued before neither drains nor counts as current; one that retires a
/// submission queued since does both, until another generation begins.
pub proof fn law_replaced_compositor_drains_nothing_old(
    view: TrackerView,
    steps: Seq<TrackerStep>,
    sequence: u32,
)
    requires
        generations_bounded(view),
        view.generation + 1 + steps.len() <= u64::MAX,
    ensures
        ({
            let replaced = view.replaced(following(view.generation));
            &&& replaced.generation == view.generation + 1
            &&& replaced.last_sequence == view.last_sequence
            &&& replaced.queued.len() == view.queued.len()
            &&& forall|i: int|
                0 <= i < view.queued.len() ==> (#[trigger] replaced.queued[i]).id
                    == view.queued[i].id && replaced.queued[i].id.generation <= view.generation
            &&& match state_after(replaced, steps).classified(sequence) {
                CrtcEventClassification::Reject => true,
                CrtcEventClassification::Retire { submission, drain, current_generation } => {
                    &&& submission.generation <= view.generation ==> !drain && !current_generation
                    &&& submission.generation > view.generation && same_generation(steps) ==> drain
                        && current_generation
                },
            }
        }),
{
    let replaced = view.replaced(following(view.generation));
    let any = CrtcSubmissionId { generation: 0, sequence_floor: 0 };
    law_queued_generations_stay_bounded(view, any, 0);
    assert forall|i: int| 0 <= i < view.queued.len() implies (#[trigger] replaced.queued[i]).id
        == view.queued[i].id && replaced.queued[i].id.generation <= view.generation by {
        assert(view.queued[i].id.generation <= view.generation);
    }
    lemma_steps_keep_past(replaced, steps, view.generation, true);
}

/// What is queued from now on carries a generation that nothing queued before has, once a
/// generation began.
pub proof fn law_new_submissions_are_of_the_new_generation(
    view: TrackerView,
    steps: Seq<TrackerStep>,
)
    requires
        generations_bounded(view),
        view.generation + 1 + steps.len() <= u64::MAX,
    ensures
        state_after(view.replaced(following(view.generation)), steps).enqueued().queued.last().id.generation
            > view.generation,
        state_after(
            view.in_generation(following(view.generation)),
            steps,
        ).enqueued().queued.last().id.generation > view.generation,
{
    let any = CrtcSubmissionId { generation: 0, sequence_floor: 0 };
    law_queued_generations_stay_bounded(view, any, 0);
    lemma_steps_keep_past(
        view.replaced(following(view.generation)),
        steps,
        view.generation,
        false,
    );
    lemma_steps_keep_past(
        view.in_generation(following(view.generation)),
        steps,
        view.generation,
        false,
    );
}

/// An event whose sequence number is the predicted floor is never rejected, nor is one up to half
/// the number range later, also where the numbers wrap around; one just before the floor is.
pub proof fn law_sequence_numbers_wrap_around(floor: u32, later: int)
    requires
        0 <= later < 0x8000_0000,
    ensures
        reaches(floor, ((floor + later) % 0x1_0000_0000) as u32),
        !reaches(floor, ((floor - 1 - later) % 0x1_0000_0000) as u32),
{
    let s = (floor + later) % 0x1_0000_0000;
    assert((s - floor) % 0x1_0000_0000 == later) by (nonlinear_arith)
        requires
            s == (floor + later) % 0x1_0000_0000,
            0 <= later < 0x8000_0000,
            0 <= floor <= 0xffff_ffff,
    ;
    let t = (floor - 1 - later) % 0x1_0000_0000;
    assert((t - floor) % 0x1_0000_0000 == 0x1_0000_0000 - 1 - later) by (nonlinear_arith)
        requires
            t == (floor - 1 - later) % 0x1_0000_0000,
            0 <= later < 0x8000_0000,
            0 <= floor <= 0xffff_ffff,
    ;
}

/// Submissions queued one after another are predicted one sequence number apart.
pub proof fn law_queued_floors_are_consecutive(view: TrackerView)
    ensures
        distance(view.next_floor(), view.enqueued().next_floor()) == 1,
{
    let base = match view.last_sequence {
        Some(s) => s + 1,
        None => 0,
    };
    let n = base + view.queued.len();
    assert(((n + 1) % 0x1_0000_0000 - n % 0x1_0000_0000) % 0x1_0000_0000 == 1) by (nonlinear_arith)
        requires
            n >= 0,
    ;
}

/// Generations follow each other one by one and are never zero, which stands for none.
pub proof fn law_generations_follow_one_by_one(generation: u64)
    ensures
        following(generation) != 0,
        generation < u64::MAX ==> following(generation) == generation + 1,
        generation == u64::MAX ==> following(generation) == 1,
        following(generation) != generation,
{
}

/// A submission joins the end of the queue with the current generation, the first where there was
/// none, and is drained. It expects the event after the last one and after those of all submissions
/// before it; nothing else changes.
pub proof fn law_submissions_join_the_end_of_the_queue(view: TrackerView)
    ensures
        ({
            let after = view.enqueued();
            let last = after.queued.last();
            &&& after.queued.len() == view.queued.len() + 1
            &&& after.queued.drop_last() == view.queued
            &&& after.last_sequence == view.last_sequence
            &&& last.drain
            &&& last.id.generation == after.generation
            &&& view.generation != 0 ==> after.generation == view.generation
            &&& view.generation == 0 ==> after.generation == 1
            &&& view.last_sequence is None && view.queued.len() < 0x1_0000_0000
                ==> last.id.sequence_floor == view.queued.len()
            &&& view.last_sequence matches Some(s) ==> (s + 1 + view.queued.len() < 0x1_0000_0000
                ==> last.id.sequence_floor == s + 1 + view.queued.len())
            &&& view.last_sequence == Some(u32::MAX) && view.queued.len() < 0x1_0000_0000
                ==> last.id.sequence_floor == view.queued.len()
        }),
{
    assert(view.enqueued().queued.drop_last() =~= view.queued);
}

/// Events retire the oldest submission: one that has come as far as its floor retires it, with its
/// own drain mark and as current exactly when it is of the current generation; any other event, or
/// one without a submission, is rejected. A retired submission leaves the queue.
pub proof fn law_events_retire_the_oldest_submission(
    view: TrackerView,
    sequence: u32,
    submission: CrtcSubmissionId,
)
    ensures
        view.queued.len() == 0 ==> view.classified(sequence) is Reject,
        view.queued.len() > 0 ==> (view.classified(sequence) is Retire <==> reaches(
            view.queued[0].id.sequence_floor,
            sequence,
        )),
        view.classified(sequence) matches CrtcEventClassification::Retire {
            submission: retired,
            drain,
            current_generation,
        } ==> {
            &&& retired == view.queued[0].id
            &&& drain == view.queued[0].drain
            &&& current_generation <==> retired.generation == view.generation
        },
        view.oldest_is(submission) <==> view.queued.len() > 0 && view.queued[0].id == submission,
        view.queued.len() > 0 ==> ({
            let after = view.completed(sequence);
            &&& after.generation == view.generation
            &&& after.last_sequence == Some(sequence)
            &&& after.queued == view.queued.subrange(1, view.queued.len() as int)
        }),
{
    if view.queued.len() > 0 {
        assert(view.completed(sequence).queued =~= view.queued.subrange(
            1,
            view.queued.len() as int,
        ));
    }
}

/// With nothing else queued, a submission is retired by the event after the last one and by no
/// repetition of the last one.
pub proof fn law_the_next_event_retires_the_next_submission(view: TrackerView, last: u32)
    requires
        view.queued.len() == 0,
        view.last_sequence == Some(last),
    ensures
        view.enqueued().classified(((last + 1) % 0x1_0000_0000) as u32) is Retire,
        view.enqueued().classified(last) is Reject,
{
    assert(view.enqueued().queued[0].id.sequence_floor == ((last + 1) % 0x1_0000_0000) as u32);
}

/// Cancelling takes exactly one submission out of the queue, the first with that identity, and keeps
/// the others in order; an unknown one changes nothing.
pub proof fn law_cancelling_removes_one_submission(
    view: TrackerView,
    submission: CrtcSubmissionId,
    i: int,
)
    ensures
        0 <= i < view.queued.len() && view.queued[i].id == submission && (forall|j: int|
            0 <= j < i ==> (#[trigger] view.queued[j]).id != submission) ==> ({
            let after = view.cancelled(submission);
            &&& after.queued == view.queued.take(i) + view.queued.skip(i + 1)
            &&& after.generation == view.generation
            &&& after.last_sequence == view.last_sequence
        }),
        (forall|j: int| 0 <= j < view.queued.len() ==> (#[trigger] view.queued[j]).id != submission)
            ==> view.cancelled(submission) == view,
{
    let n = view.queued.len() as int;
    lemma_position(view, submission, n);
    lemma_position_first(view, submission, n);
    if 0 <= i < n && view.queued[i].id == submission && (forall|j: int|
        0 <= j < i ==> (#[trigger] view.queued[j]).id != submission) {
        let at = view.position(submission, n)->0;
        if at < i {
            assert(view.queued[at].id != submission);
        } else if i < at {
            assert(view.queued[i].id != submission);
        }
        assert(view.queued.remove(i) =~= view.queued.take(i) + view.queued.skip(i + 1));
    }
}

proof fn lemma_position_first(view: TrackerView, submission: CrtcSubmissionId, n: int)
    requires
        0 <= n <= view.queued.len(),
    ensures
        view.position(submission, n) matches Some(at) ==> forall|j: int|
            0 <= j < at ==> (#[trigger] view.queued[j]).id != submission,
    decreases n,
{
    if n > 0 {
        lemma_position(view, submission, n - 1);
        lemma_position_first(view, submission, n - 1);
    }
}

/// A new generation changes neither the queue nor the last event; a new compositor changes only the
/// drain marks, all of which it clears.
pub proof fn law_new_generations_keep_the_queue(view: TrackerView, generation: u64, i: int)
    ensures
        view.in_generation(generation).generation == generation,
        view.in_generation(generation).queued == view.queued,
        view.in_generation(generation).last_sequence == view.last_sequence,
        view.replaced(generation).generation == generation,
        view.replaced(generation).last_sequence == view.last_sequence,
        view.replaced(generation).queued.len() == view.queued.len(),
        0 <= i < view.queued.len() ==> view.replaced(generation).queued[i].id == view.queued[i].id
            && !view.replaced(generation).queued[i].drain,
{
}

} // verus!
