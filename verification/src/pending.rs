//! Frames in flight: waiting for the completion events of every submitted member.

use vstd::prelude::*;

use crate::bits;
use crate::bits::member_bit;
use crate::crtc;
use crate::layout::MAX_GROUP_MEMBERS;

verus! {

/// Completion of one member's frame.
#[derive(Debug, Clone, Copy, PartialEq, Eq, Structural)]
pub struct MemberEvent {
    pub sequence: u32,
    /// Presentation time in nanoseconds.
    pub time: u128,
}

/// The latest time among the first `n` events.
pub open spec fn latest(events: Seq<Option<MemberEvent>>, n: int) -> Option<u128>
    decreases n,
{
    if n <= 0 {
        None
    } else {
        match (latest(events, n - 1), events[n - 1]) {
            (Some(t), Some(e)) => Some(
                if t >= e.time {
                    t
                } else {
                    e.time
                },
            ),
            (Some(t), None) => Some(t),
            (None, Some(e)) => Some(e.time),
            (None, None) => None,
        }
    }
}

/// The event of a whole group: the primary member's sequence number with the latest time.
pub open spec fn aggregated(events: Seq<Option<MemberEvent>>, primary: int) -> Option<MemberEvent> {
    if 0 <= primary < events.len() && events[primary] is Some {
        Some(
            MemberEvent {
                sequence: events[primary]->0.sequence,
                time: latest(events, events.len() as int)->0,
            },
        )
    } else {
        None
    }
}

proof fn lemma_latest(events: Seq<Option<MemberEvent>>, n: int)
    requires
        0 <= n <= events.len(),
    ensures
        match latest(events, n) {
            Some(t) => {
                &&& forall|i: int|
                    0 <= i < n ==> ((#[trigger] events[i]) matches Some(e) ==> e.time <= t)
                &&& exists|i: int|
                    0 <= i < n && ((#[trigger] events[i]) matches Some(e) && e.time == t)
            },
            None => forall|i: int| 0 <= i < n ==> (#[trigger] events[i]) is None,
        },
    decreases n,
{
    if n > 0 {
        lemma_latest(events, n - 1);
        match latest(events, n - 1) {
            Some(t) => {
                let i = choose|i: int|
                    0 <= i < n - 1 && ((#[trigger] events[i]) matches Some(e) && e.time == t);
                assert(events[i] is Some);
                assert(events[n - 1] is Some || events[n - 1] is None);
            },
            None => {
                assert(events[n - 1] is Some || events[n - 1] is None);
            },
        }
    }
}

fn latest_time(events: &[Option<MemberEvent>; MAX_GROUP_MEMBERS]) -> (time: Option<u128>)
    ensures
        time == latest(events@, events@.len() as int),
{
    let mut time: Option<u128> = None;
    for i in 0..MAX_GROUP_MEMBERS
        invariant
            time == latest(events@, i as int),
    {
        if let Some(event) = events[i] {
            time = match time {
                Some(t) => if t >= event.time {
                    Some(t)
                } else {
                    Some(event.time)
                },
                None => Some(event.time),
            };
        }
    }
    time
}

/// Folds member events in member-index order. Only the designated primary member's sequence is
/// used; sequences from different devices are unrelated. Presentation time is the latest
/// completion.
pub fn aggregate_member_events(
    events: &[Option<MemberEvent>; MAX_GROUP_MEMBERS],
    primary: usize,
) -> (event: Option<MemberEvent>)
    ensures
        event == aggregated(events@, primary as int),
{
    if primary >= MAX_GROUP_MEMBERS {
        return None;
    }
    match events[primary] {
        None => None,
        Some(first) => {
            proof {
                lemma_latest(events@, events@.len() as int);
                assert(events@[primary as int] is Some);
            }
            match latest_time(events) {
                Some(time) => Some(MemberEvent { sequence: first.sequence, time }),
                None => None,
            }
        },
    }
}

/// Why a frame cannot be finished.
#[derive(Debug, Clone, Copy, PartialEq, Eq, Structural)]
pub enum FrameError {
    StillPending,
    PrimaryAbsent,
    NoEvents,
}

impl FrameError {
    /// The error in words.
    pub open spec fn message(self) -> Seq<char> {
        match self {
            FrameError::StillPending => "group frame is still pending"@,
            FrameError::PrimaryAbsent => "primary member did not participate in this frame"@,
            FrameError::NoEvents => "group frame has no member events"@,
        }
    }

    /// The error in words.
    pub fn to_string(&self) -> (message: String)
        ensures
            message@ == self.message(),
            *self is StillPending ==> message@ == "group frame is still pending"@,
            *self is PrimaryAbsent ==> message@ == "primary member did not participate in this frame"@,
            *self is NoEvents ==> message@ == "group frame has no member events"@,
    {
        let message = match self {
            FrameError::StillPending => "group frame is still pending",
            FrameError::PrimaryAbsent => "primary member did not participate in this frame",
            FrameError::NoEvents => "group frame has no member events",
        };
        message.to_owned()
    }
}

/// One logical frame in flight. Only members of the pending mask are waited on.
///
/// A single frame intentionally couples group pacing: a slow member stalls the next logical frame.
/// This keeps members from running ahead independently and makes ownership tractable. Watchdog and
/// misprediction thresholds must therefore treat normal EVDI USB jitter (often 10-20 ms) as
/// latency, not a missing-event failure.
#[derive(Debug)]
pub struct PendingGroupFrame<F> {
    frame: F,
    pending_mask: u8,
    events: [Option<MemberEvent>; MAX_GROUP_MEMBERS],
    sequence_floors: [u32; MAX_GROUP_MEMBERS],
}

/// The contents of a frame in flight.
pub struct FrameView<F> {
    pub frame: F,
    /// Members that are waited on, one bit each.
    pub mask: u8,
    pub events: Seq<Option<MemberEvent>>,
    pub floors: Seq<u32>,
}

impl<F> View for PendingGroupFrame<F> {
    type V = FrameView<F>;

    closed spec fn view(&self) -> FrameView<F> {
        FrameView {
            frame: self.frame,
            mask: self.pending_mask,
            events: self.events@,
            floors: self.sequence_floors@,
        }
    }
}

/// Whether the mask names only possible members, and at least one.
pub open spec fn submittable(mask: u8) -> bool {
    &&& exists|i: int| #[trigger] bits::has_bit(mask, i)
    &&& forall|i: int| #[trigger] bits::has_bit(mask, i) ==> i < MAX_GROUP_MEMBERS
}

impl<F> FrameView<F> {
    /// Only members without an event are waited on, and some member has an event or is waited on.
    pub open spec fn wf(self) -> bool {
        &&& self.events.len() == MAX_GROUP_MEMBERS
        &&& self.floors.len() == MAX_GROUP_MEMBERS
        &&& forall|i: int| #[trigger]
            bits::has_bit(self.mask, i) ==> i < MAX_GROUP_MEMBERS && self.events[i] is None
        &&& self.mask == 0 ==> exists|i: int|
            0 <= i < MAX_GROUP_MEMBERS && (#[trigger] self.events[i]) is Some
    }

    /// A frame that was just submitted.
    pub open spec fn submitted(frame: F, mask: u8, floors: Seq<u32>) -> Self {
        FrameView {
            frame,
            mask,
            events: Seq::new(MAX_GROUP_MEMBERS as nat, |i: int| None::<MemberEvent>),
            floors,
        }
    }

    /// Whether an event of the member counts: the member is waited on, and the event is not older
    /// than the submission.
    pub open spec fn takes(self, member: int, sequence: u32) -> bool {
        &&& 0 <= member < MAX_GROUP_MEMBERS
        &&& bits::has_bit(self.mask, member)
        &&& crtc::reaches(self.floors[member], sequence)
    }

    /// The frame with the member's event taken note of.
    pub open spec fn recorded(self, member: int, event: MemberEvent) -> Self {
        FrameView {
            frame: self.frame,
            mask: bits::without(self.mask, member),
            events: self.events.update(member, Some(event)),
            floors: self.floors,
        }
    }
}

impl<F> PendingGroupFrame<F> {
    pub fn new(frame: F, submitted_mask: u8, sequence_floors: [u32; MAX_GROUP_MEMBERS]) -> (pending:
        Self)
        requires
            submittable(submitted_mask),
        ensures
            pending@ == FrameView::submitted(frame, submitted_mask, sequence_floors@),
            pending@.wf(),
    {
        let events: [Option<MemberEvent>; MAX_GROUP_MEMBERS] = [None, None, None, None];
        let pending = PendingGroupFrame {
            frame,
            pending_mask: submitted_mask,
            events,
            sequence_floors,
        };
        proof {
            let expected = FrameView::submitted(frame, submitted_mask, sequence_floors@);
            assert(pending@.events =~= expected.events);
            bits::lemma_empty(submitted_mask);
        }
        pending
    }

    pub fn pending_mask(&self) -> (mask: u8)
        ensures
            mask == self@.mask,
    {
        self.pending_mask
    }

    /// Records one event. Duplicate, unsubmitted, and pre-submit stale events are ignored.
    pub fn record(&mut self, member: usize, event: MemberEvent) -> (taken: bool)
        requires
            old(self)@.wf(),
        ensures
            final(self)@.wf(),
            taken == old(self)@.takes(member as int, event.sequence),
            final(self)@ == (if taken {
                old(self)@.recorded(member as int, event)
            } else {
                old(self)@
            }),
    {
        if !self.accepts(member, event.sequence) {
            return false;
        }
        let ghost before = self@;
        let bit = member_bit(member as u32);
        self.events[member] = Some(event);
        self.pending_mask = self.pending_mask & !bit;
        proof {
            bits::lemma_without(before.mask, member as int);
            assert((member as u32) as u8 == (member as int) as u8);
            assert(self@.mask == bits::without(before.mask, member as int));
            assert(self@.events =~= before.events.update(member as int, Some(event)));
            assert(self@.events[member as int] is Some);
            assert forall|i: int| #[trigger] bits::has_bit(self@.mask, i) implies i
                < MAX_GROUP_MEMBERS && self@.events[i] is None by {
                assert(bits::has_bit(before.mask, i));
            }
        }
        true
    }

    pub fn accepts(&self, member: usize, sequence: u32) -> (yes: bool)
        requires
            self@.wf(),
        ensures
            yes == self@.takes(member as int, sequence),
    {
        if member >= MAX_GROUP_MEMBERS {
            return false;
        }
        let bit = member_bit(member as u32);
        proof {
            bits::lemma_intersection(self.pending_mask, bit);
            bits::lemma_empty(self.pending_mask & bit);
            if self.pending_mask & bit != 0 {
                let i = choose|i: int| #[trigger] bits::has_bit(self.pending_mask & bit, i);
                assert(i == member);
            } else {
                assert(!bits::has_bit(self.pending_mask & bit, member as int));
                assert(bits::has_bit(bit, member as int));
            }
        }
        if self.pending_mask & bit == 0 {
            return false;
        }
        sequence.wrapping_sub(self.sequence_floors[member]) < 0x8000_0000
    }

    /// Completes a frame on one device with the primary member's sequence number.
    pub fn finish(self, primary: usize) -> (finished: Result<(F, MemberEvent), FrameError>)
        ensures
            finished == (if self@.mask != 0 {
                Err(FrameError::StillPending)
            } else {
                match aggregated(self@.events, primary as int) {
                    Some(event) => Ok((self@.frame, event)),
                    None => Err(FrameError::PrimaryAbsent),
                }
            }),
    {
        if self.pending_mask != 0 {
            return Err(FrameError::StillPending);
        }
        match aggregate_member_events(&self.events, primary) {
            Some(event) => Ok((self.frame, event)),
            None => Err(FrameError::PrimaryAbsent),
        }
    }

    /// Completes a cross-device frame using the logical group sequence. Sequence counters from
    /// different devices are unrelated, so only the latest completion timestamp is aggregated.
    pub fn finish_logical(self, sequence: u32) -> (finished: Result<(F, MemberEvent), FrameError>)
        ensures
            finished == (if self@.mask != 0 {
                Err(FrameError::StillPending)
            } else {
                match latest(self@.events, self@.events.len() as int) {
                    Some(time) => Ok((self@.frame, MemberEvent { sequence, time })),
                    None => Err(FrameError::NoEvents),
                }
            }),
    {
        if self.pending_mask != 0 {
            return Err(FrameError::StillPending);
        }
        match latest_time(&self.events) {
            Some(time) => Ok((self.frame, MemberEvent { sequence, time })),
            None => Err(FrameError::NoEvents),
        }
    }
}

// ---------------------------------------------------------------------------------------------
// Lifecycle
// ---------------------------------------------------------------------------------------------

#[derive(Debug, Clone, Copy, PartialEq, Eq, Structural)]
pub enum LogicalFrameOutcome {
    Complete,
    PartialFailure,
}

#[derive(Debug, Clone, Copy, PartialEq, Eq, Structural)]
pub enum LogicalFrameDisposition {
    Present { sequence: u32 },
    DiscardPartial,
}

#[derive(Debug)]
pub struct LogicalFrameCompletion<F> {
    pub frame: F,
    pub event: MemberEvent,
    pub disposition: LogicalFrameDisposition,
}

#[derive(Debug)]
pub enum LogicalFrameEvent<F> {
    Rejected,
    Waiting,
    Completed(LogicalFrameCompletion<F>),
}

/// A frame in flight and whether every member's part of it was submitted.
#[derive(Debug)]
struct LogicalPendingFrame<F> {
    pending: PendingGroupFrame<F>,
    outcome: LogicalFrameOutcome,
}

/// Pure generalized-frame lifecycle used by the host KMS adapter.
///
/// It is the sole owner of the successful logical sequence: partial cross-device submissions wait
/// for every submitted member so buffers remain retained, but can only produce `DiscardPartial`.
/// This keeps truthful presentation behavior deterministic.
#[derive(Debug)]
pub struct LogicalFrameLifecycle<F> {
    pending: Option<LogicalPendingFrame<F>>,
    successful_sequence: u32,
}

/// The contents of a frame in flight and whether every member's part of it was submitted.
pub struct InFlight<F> {
    pub frame: FrameView<F>,
    pub outcome: LogicalFrameOutcome,
}

/// The contents of a lifecycle.
pub struct LifecycleView<F> {
    pub pending: Option<InFlight<F>>,
    pub sequence: u32,
}

impl<F> View for LogicalFrameLifecycle<F> {
    type V = LifecycleView<F>;

    closed spec fn view(&self) -> LifecycleView<F> {
        LifecycleView {
            pending: match self.pending {
                Some(p) => Some(InFlight { frame: p.pending@, outcome: p.outcome }),
                None => None,
            },
            sequence: self.successful_sequence,
        }
    }
}

/// The sequence number that follows, with wraparound.
pub open spec fn next_sequence(sequence: u32) -> u32 {
    if sequence == u32::MAX {
        0
    } else {
        (sequence + 1) as u32
    }
}

impl<F> LifecycleView<F> {
    pub open spec fn wf(self) -> bool {
        self.pending matches Some(p) ==> p.frame.wf() && p.frame.mask != 0
    }

    /// What becomes of the frame `last` after its last event: it is presented under the next
    /// sequence number, or discarded where some member's part was not submitted.
    pub open spec fn completion(self, last: FrameView<F>, outcome: LogicalFrameOutcome) -> (
        LifecycleView<F>,
        LogicalFrameCompletion<F>,
    ) {
        let next = next_sequence(self.sequence);
        let event = MemberEvent {
            sequence: next,
            time: latest(last.events, last.events.len() as int)->0,
        };
        match outcome {
            LogicalFrameOutcome::Complete => (
                LifecycleView { pending: None, sequence: next },
                LogicalFrameCompletion {
                    frame: last.frame,
                    event,
                    disposition: LogicalFrameDisposition::Present { sequence: next },
                },
            ),
            LogicalFrameOutcome::PartialFailure => (
                LifecycleView { pending: None, sequence: self.sequence },
                LogicalFrameCompletion {
                    frame: last.frame,
                    event,
                    disposition: LogicalFrameDisposition::DiscardPartial,
                },
            ),
        }
    }

    /// Whether an event of the member counts.
    pub open spec fn takes(self, member: int, sequence: u32) -> bool {
        self.pending matches Some(p) && p.frame.takes(member, sequence)
    }

    /// What follows an event of the member.
    pub open spec fn after_event(self, member: int, event: MemberEvent) -> (
        LifecycleView<F>,
        LogicalFrameEvent<F>,
    ) {
        match self.pending {
            None => (self, LogicalFrameEvent::Rejected),
            Some(p) => if !p.frame.takes(member, event.sequence) {
                (self, LogicalFrameEvent::Rejected)
            } else {
                let last = p.frame.recorded(member, event);
                if last.mask != 0 {
                    (
                        LifecycleView {
                            pending: Some(InFlight { frame: last, outcome: p.outcome }),
                            sequence: self.sequence,
                        },
                        LogicalFrameEvent::Waiting,
                    )
                } else {
                    let done = self.completion(last, p.outcome);
                    (done.0, LogicalFrameEvent::Completed(done.1))
                }
            },
        }
    }
}

impl<F> Default for LogicalFrameLifecycle<F> {
    fn default() -> (lifecycle: Self)
        ensures
            lifecycle@.pending is None,
            lifecycle@.sequence == 0,
    {
        LogicalFrameLifecycle { pending: None, successful_sequence: 0 }
    }
}

impl<F> LogicalFrameLifecycle<F> {
    pub fn has_pending(&self) -> (yes: bool)
        ensures
            yes == self@.pending is Some,
    {
        self.pending.is_some()
    }

    /// Takes note of a submitted frame; there is at most one in flight.
    pub fn submit(
        &mut self,
        frame: F,
        submitted_mask: u8,
        sequence_floors: [u32; MAX_GROUP_MEMBERS],
        outcome: LogicalFrameOutcome,
    )
        requires
            old(self)@.pending is None,
            submittable(submitted_mask),
        ensures
            final(self)@.wf(),
            final(self)@.sequence == old(self)@.sequence,
            final(self)@.pending matches Some(p) && p.outcome == outcome && p.frame
                == FrameView::submitted(frame, submitted_mask, sequence_floors@),
    {
        proof {
            bits::lemma_empty(submitted_mask);
        }
        self.pending = Some(
            LogicalPendingFrame {
                pending: PendingGroupFrame::new(frame, submitted_mask, sequence_floors),
                outcome,
            },
        );
    }

    /// Takes note of one member's event.
    pub fn record(&mut self, member: usize, event: MemberEvent) -> (result: LogicalFrameEvent<F>)
        requires
            old(self)@.wf(),
        ensures
            final(self)@.wf(),
            (final(self)@, result) == old(self)@.after_event(member as int, event),
    {
        let taken = self.pending.take();
        let mut pending = match taken {
            Some(pending) => pending,
            None => {
                return LogicalFrameEvent::Rejected;
            },
        };
        let ghost before = pending.pending@;
        if !pending.pending.record(member, event) {
            self.pending = Some(pending);
            return LogicalFrameEvent::Rejected;
        }
        let ghost last = pending.pending@;
        assert(last == before.recorded(member as int, event));
        if pending.pending.pending_mask() != 0 {
            self.pending = Some(pending);
            return LogicalFrameEvent::Waiting;
        }
        proof {
            lemma_latest(last.events, last.events.len() as int);
        }
        let outcome = pending.outcome;
        let next: u32 = if self.successful_sequence == u32::MAX {
            0
        } else {
            self.successful_sequence + 1
        };
        match pending.pending.finish_logical(next) {
            Ok((frame, event)) => {
                let disposition = match outcome {
                    LogicalFrameOutcome::Complete => {
                        self.successful_sequence = next;
                        LogicalFrameDisposition::Present { sequence: next }
                    },
                    LogicalFrameOutcome::PartialFailure => LogicalFrameDisposition::DiscardPartial,
                };
                LogicalFrameEvent::Completed(LogicalFrameCompletion { frame, event, disposition })
            },
            Err(_) => LogicalFrameEvent::Rejected,
        }
    }

    /// Abandons the frame in flight.
    pub fn take_pending(&mut self) -> (frame: Option<F>)
        ensures
            frame == (match old(self)@.pending {
                Some(p) => Some(p.frame.frame),
                None => None,
            }),
            final(self)@.pending is None,
            final(self)@.sequence == old(self)@.sequence,
    {
        match self.pending.take() {
            Some(pending) => Some(pending.pending.frame),
            None => None,
        }
    }

    pub fn successful_sequence(&self) -> (sequence: u32)
        ensures
            sequence == self@.sequence,
    {
        self.successful_sequence
    }
}

// ---------------------------------------------------------------------------------------------
// Laws
// ---------------------------------------------------------------------------------------------

/// The frame after the events of the first `k` members of `order`.
pub open spec fn after_members<F>(
    start: FrameView<F>,
    order: Seq<int>,
    events: Seq<MemberEvent>,
    k: int,
) -> FrameView<F>
    decreases k,
{
    if k <= 0 {
        start
    } else {
        after_members(start, order, events, k - 1).recorded(order[k - 1], events[k - 1])
    }
}

/// Events of distinct submitted members that are not older than the submission all count, in
/// whatever order they come, and the frame is complete after the last submitted member and not
/// before.
pub proof fn law_every_event_order_completes_the_frame_once<F>(
    start: FrameView<F>,
    order: Seq<int>,
    events: Seq<MemberEvent>,
    k: int,
)
    requires
        start.wf(),
        events.len() == order.len(),
        order.no_duplicates(),
        forall|j: int|
            0 <= j < order.len() ==> start.takes(#[trigger] order[j], events[j].sequence),
        0 <= k <= order.len(),
    ensures
        after_members(start, order, events, k).mask == 0 <==> (forall|i: int| #[trigger]
            bits::has_bit(start.mask, i) ==> order.take(k).contains(i)),
        k < order.len() ==> after_members(start, order, events, k).takes(
            order[k],
            events[k].sequence,
        ),
        forall|j: int|
            0 <= j < k ==> !after_members(start, order, events, k).takes(
                #[trigger] order[j],
                events[j].sequence,
            ),
{
    lemma_after_members(start, order, events, k);
    let now = after_members(start, order, events, k);
    bits::lemma_empty(now.mask);
    if now.mask != 0 {
        let i = choose|i: int| #[trigger] bits::has_bit(now.mask, i);
        assert(bits::has_bit(start.mask, i) && !order.take(k).contains(i));
    } else {
        assert forall|i: int| #[trigger] bits::has_bit(start.mask, i) implies order.take(
            k,
        ).contains(i) by {
            assert(!bits::has_bit(now.mask, i));
        }
    }
    if k < order.len() {
        assert(start.takes(order[k], events[k].sequence));
        if order.take(k).contains(order[k]) {
            let j = choose|j: int| 0 <= j < k && order.take(k)[j] == order[k];
            assert(order[j] == order[k]);
        }
        assert(bits::has_bit(now.mask, order[k]));
    }
    assert forall|j: int| 0 <= j < k implies !now.takes(
        #[trigger] order[j],
        events[j].sequence,
    ) by {
        assert(order.take(k)[j] == order[j]);
        assert(!bits::has_bit(now.mask, order[j]));
    }
}

proof fn lemma_after_members<F>(
    start: FrameView<F>,
    order: Seq<int>,
    events: Seq<MemberEvent>,
    k: int,
)
    requires
        events.len() == order.len(),
        forall|j: int|
            0 <= j < order.len() ==> start.takes(#[trigger] order[j], events[j].sequence),
        0 <= k <= order.len(),
    ensures
        after_members(start, order, events, k).floors == start.floors,
        forall|i: int| #[trigger]
            bits::has_bit(after_members(start, order, events, k).mask, i) <==> bits::has_bit(
                start.mask,
                i,
            ) && !order.take(k).contains(i),
    decreases k,
{
    if k == 0 {
        assert(order.take(0) =~= Seq::empty());
    } else {
        lemma_after_members(start, order, events, k - 1);
        let before = after_members(start, order, events, k - 1);
        let now = after_members(start, order, events, k);
        let member = order[k - 1];
        assert(start.takes(order[k - 1], events[k - 1].sequence));
        bits::lemma_without(before.mask, member);
        let prev = order.take(k - 1);
        let next = order.take(k);
        assert forall|i: int| #[trigger] bits::has_bit(now.mask, i) <==> bits::has_bit(
            start.mask,
            i,
        ) && !next.contains(i) by {
            assert(bits::has_bit(before.mask, i) <==> bits::has_bit(start.mask, i)
                && !prev.contains(i));
            if prev.contains(i) {
                let j = choose|j: int| 0 <= j < prev.len() && prev[j] == i;
                assert(next[j] == i);
            }
            if next.contains(i) {
                let j = choose|j: int| 0 <= j < next.len() && next[j] == i;
                if j < k - 1 {
                    assert(prev[j] == i);
                }
            }
            assert(next[k - 1] == member);
        }
    }
}

/// A frame of which some member's part was not submitted is never presented, and leaves the logical
/// sequence as it was.
pub proof fn law_partial_frames_are_never_presented<F>(
    view: LifecycleView<F>,
    member: int,
    event: MemberEvent,
)
    requires
        view.pending matches Some(p) && p.outcome == LogicalFrameOutcome::PartialFailure,
    ensures
        view.after_event(member, event).0.sequence == view.sequence,
        match view.after_event(member, event).1 {
            LogicalFrameEvent::Completed(done) => done.disposition
                == LogicalFrameDisposition::DiscardPartial,
            _ => true,
        },
{
}

/// The logical sequence advances exactly when a frame is presented, by one, and the frame carries
/// the new number.
pub proof fn law_sequence_counts_presented_frames<F>(
    view: LifecycleView<F>,
    member: int,
    event: MemberEvent,
)
    ensures
        match view.after_event(member, event).1 {
            LogicalFrameEvent::Completed(done) => match done.disposition {
                LogicalFrameDisposition::Present { sequence } => sequence == next_sequence(
                    view.sequence,
                ) && view.after_event(member, event).0.sequence == sequence && done.event.sequence
                    == sequence,
                LogicalFrameDisposition::DiscardPartial => view.after_event(
                    member,
                    event,
                ).0.sequence == view.sequence,
            },
            _ => view.after_event(member, event).0.sequence == view.sequence,
        },
{
}

/// An event that is stale, repeated, or of a member that was not submitted changes nothing.
pub proof fn law_foreign_events_change_nothing<F>(
    view: LifecycleView<F>,
    member: int,
    event: MemberEvent,
)
    requires
        match view.pending {
            Some(p) => !(0 <= member < MAX_GROUP_MEMBERS) || !bits::has_bit(p.frame.mask, member)
                || !crtc::reaches(p.frame.floors[member], event.sequence),
            None => true,
        },
    ensures
        view.after_event(member, event) == (view, LogicalFrameEvent::<F>::Rejected),
{
}

/// A completed frame carries the latest of its members' times.
pub proof fn law_completion_time_is_the_latest<F>(
    view: LifecycleView<F>,
    member: int,
    event: MemberEvent,
    other: int,
)
    requires
        view.wf(),
    ensures
        match view.after_event(member, event).1 {
            LogicalFrameEvent::Completed(done) => {
                &&& event.time <= done.event.time
                &&& 0 <= other < MAX_GROUP_MEMBERS && other != member ==> (
                view.pending->0.frame.events[other] matches Some(e) ==> e.time <= done.event.time)
            },
            _ => true,
        },
{
    if let Some(p) = view.pending {
        if p.frame.takes(member, event.sequence) {
            let last = p.frame.recorded(member, event);
            lemma_latest(last.events, last.events.len() as int);
            assert(last.events[member] == Some(event));
            if 0 <= other < MAX_GROUP_MEMBERS && other != member {
                assert(last.events[other] == p.frame.events[other]);
            }
        }
    }
}

/// The latest time is that of some event, and no event is later; there is none exactly when no
/// member has had an event.
pub proof fn law_the_latest_time_is_that_of_the_last_member(events: Seq<Option<MemberEvent>>, i: int)
    ensures
        ({
            let time = latest(events, events.len() as int);
            &&& time matches Some(t) ==> {
                &&& 0 <= i < events.len() ==> (events[i] matches Some(e) ==> e.time <= t)
                &&& exists|k: int|
                    0 <= k < events.len() && ((#[trigger] events[k]) matches Some(e) && e.time == t)
            }
            &&& time is None <==> forall|k: int|
                0 <= k < events.len() ==> (#[trigger] events[k]) is None
        }),
{
    lemma_latest(events, events.len() as int);
}

/// The event of a whole group has the sequence number of its primary member and the latest time; it
/// exists exactly when the primary member has had its event.
pub proof fn law_groups_take_the_sequence_of_their_primary(
    events: Seq<Option<MemberEvent>>,
    primary: int,
    i: int,
)
    ensures
        aggregated(events, primary) is Some <==> 0 <= primary < events.len() && events[primary]
            is Some,
        aggregated(events, primary) matches Some(event) ==> {
            &&& event.sequence == events[primary]->0.sequence
            &&& 0 <= i < events.len() ==> (events[i] matches Some(e) ==> e.time <= event.time)
            &&& exists|k: int|
                0 <= k < events.len() && ((#[trigger] events[k]) matches Some(e) && e.time
                    == event.time)
        },
{
    lemma_latest(events, events.len() as int);
    if aggregated(events, primary) is Some {
        assert(events[primary] is Some);
    }
}

/// A submitted frame waits for every member that it was submitted to, with no event yet. A member's
/// event is taken exactly when the frame still waits for it and it has come as far as its floor; the
/// frame then waits for one member less and has that event, and nothing else changes.
pub proof fn law_frames_wait_for_each_submitted_member_once<F>(
    frame: F,
    mask: u8,
    floors: Seq<u32>,
    view: FrameView<F>,
    member: int,
    event: MemberEvent,
    other: int,
)
    requires
        view.wf(),
    ensures
        ({
            let start = FrameView::submitted(frame, mask, floors);
            &&& start.frame == frame
            &&& start.mask == mask
            &&& start.floors == floors
            &&& start.events.len() == 4
            &&& 0 <= other < 4 ==> start.events[other] is None
        }),
        view.takes(member, event.sequence) <==> 0 <= member < 4 && bits::has_bit(view.mask, member)
            && crtc::reaches(view.floors[member], event.sequence),
        view.takes(member, event.sequence) ==> ({
            let after = view.recorded(member, event);
            &&& after.frame == view.frame
            &&& after.floors == view.floors
            &&& after.events[member] == Some(event)
            &&& 0 <= other < 4 && other != member ==> after.events[other] == view.events[other]
            &&& bits::has_bit(after.mask, other) <==> bits::has_bit(view.mask, other) && other
                != member
        }),
{
    if 0 <= member < 8 {
        bits::lemma_without(view.mask, member);
    }
}

/// Sequence numbers of presented frames count up by one and start over at zero.
pub proof fn law_sequence_numbers_count_up(sequence: u32)
    ensures
        sequence < u32::MAX ==> next_sequence(sequence) == sequence + 1,
        next_sequence(u32::MAX) == 0,
{
}

/// The event of the last awaited member completes the frame that was submitted, which is presented
/// exactly when every submission succeeded; until then the frame stays in flight as it is.
pub proof fn law_the_last_event_completes_the_submitted_frame<F>(
    view: LifecycleView<F>,
    member: int,
    event: MemberEvent,
)
    requires
        view.wf(),
        view.takes(member, event.sequence),
    ensures
        ({
            let flying = view.pending->0;
            let after = view.after_event(member, event);
            let last = forall|i: int| #[trigger] bits::has_bit(flying.frame.mask, i) ==> i == member;
            &&& !(after.1 is Rejected)
            &&& after.1 is Completed <==> last
            &&& after.1 matches LogicalFrameEvent::Completed(done) ==> {
                &&& after.0.pending is None
                &&& done.frame == flying.frame.frame
                &&& done.disposition is Present <==> flying.outcome is Complete
                &&& flying.outcome is Complete ==> done.disposition
                    == LogicalFrameDisposition::Present { sequence: done.event.sequence }
            }
            &&& after.1 is Waiting ==> (after.0.pending matches Some(p) && p.outcome
                == flying.outcome && p.frame == flying.frame.recorded(member, event))
        }),
{
    let flying = view.pending->0;
    let rest = bits::without(flying.frame.mask, member);
    bits::lemma_without(flying.frame.mask, member);
    bits::lemma_empty(rest);
    if rest != 0 {
        let i = choose|i: int| #[trigger] bits::has_bit(rest, i);
        assert(bits::has_bit(flying.frame.mask, i) && i != member);
    } else {
        assert forall|i: int| #[trigger] bits::has_bit(flying.frame.mask, i) implies i
            == member by {
            assert(!bits::has_bit(rest, i));
        }
    }
}

} // verus!
