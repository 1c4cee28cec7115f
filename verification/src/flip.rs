//! One frame shown by two CRTCs at once.

use vstd::prelude::*;

verus! {

/// When an event happened, in nanoseconds.
#[derive(Debug, Clone, Copy, PartialEq, Eq, Structural)]
pub enum DrmEventTime {
    Monotonic(u128),
    Realtime(u128),
}

/// Sequence number and time of a completion event.
#[derive(Debug, Clone, Copy, PartialEq, Eq, Structural)]
pub struct DrmEventMetadata {
    pub sequence: u32,
    pub time: DrmEventTime,
}

/// The time by which events are ordered; only monotonic times are.
pub open spec fn ordering_time(meta: DrmEventMetadata) -> u128 {
    match meta.time {
        DrmEventTime::Monotonic(time) => time,
        DrmEventTime::Realtime(_) => 0,
    }
}

/// The event of the whole frame: the primary's sequence number with the later time.
pub open spec fn later_event(primary: DrmEventMetadata, secondary: DrmEventMetadata) -> DrmEventMetadata {
    DrmEventMetadata {
        sequence: primary.sequence,
        time: if ordering_time(primary) >= ordering_time(secondary) {
            primary.time
        } else {
            secondary.time
        },
    }
}

fn timestamp(meta: &DrmEventMetadata) -> (time: u128)
    ensures
        time == ordering_time(*meta),
{
    match meta.time {
        DrmEventTime::Monotonic(time) => time,
        DrmEventTime::Realtime(_) => 0,
    }
}

/// The event of the whole frame: the primary's sequence number with the later time.
pub fn aggregate_member_events(
    primary: DrmEventMetadata,
    secondary: DrmEventMetadata,
) -> (meta: DrmEventMetadata)
    ensures
        meta == later_event(primary, secondary),
{
    let time = if timestamp(&primary) >= timestamp(&secondary) {
        primary.time
    } else {
        secondary.time
    };
    DrmEventMetadata { sequence: primary.sequence, time }
}

/// Which completion events of a committed frame are still to come.
#[derive(Debug)]
pub enum TiledFlipState<F> {
    Idle,
    AwaitingBoth(F),
    AwaitingSecond { frame: F, first_member: usize, first_event: DrmEventMetadata },
}

impl<F> Default for TiledFlipState<F> {
    fn default() -> (state: Self)
        ensures
            state is Idle,
    {
        TiledFlipState::Idle
    }
}

impl<F> TiledFlipState<F> {
    /// The frame that is committed but not yet presented.
    pub open spec fn committed(self) -> Option<F> {
        match self {
            TiledFlipState::Idle => None,
            TiledFlipState::AwaitingBoth(frame) => Some(frame),
            TiledFlipState::AwaitingSecond { frame, .. } => Some(frame),
        }
    }

    /// What follows an event of a member: the frame is complete once both members had one.
    pub open spec fn after_event(self, member: usize, meta: DrmEventMetadata) -> (
        TiledFlipState<F>,
        Option<(F, DrmEventMetadata)>,
    ) {
        match self {
            TiledFlipState::Idle => (TiledFlipState::Idle, None),
            TiledFlipState::AwaitingBoth(frame) => (
                TiledFlipState::AwaitingSecond { frame, first_member: member, first_event: meta },
                None,
            ),
            TiledFlipState::AwaitingSecond { frame, first_member, first_event } => if first_member
                == member {
                (self, None)
            } else {
                (
                    TiledFlipState::Idle,
                    Some(
                        (
                            frame,
                            if first_member == 0 {
                                later_event(first_event, meta)
                            } else {
                                later_event(meta, first_event)
                            },
                        ),
                    ),
                )
            },
        }
    }

    pub fn has_pending_frame(&self) -> (yes: bool)
        ensures
            yes == self.committed() is Some,
    {
        match self {
            TiledFlipState::Idle => false,
            _ => true,
        }
    }

    /// Takes note of a committed frame; there is at most one.
    pub fn frame_committed(&mut self, frame: F)
        requires
            *old(self) is Idle,
        ensures
            *final(self) == TiledFlipState::AwaitingBoth(frame),
    {
        *self = TiledFlipState::AwaitingBoth(frame);
    }

    pub fn pending(&self) -> (frame: Option<&F>)
        ensures
            match frame {
                Some(f) => self.committed() == Some(*f),
                None => self.committed() is None,
            },
    {
        match self {
            TiledFlipState::Idle => None,
            TiledFlipState::AwaitingBoth(frame) => Some(frame),
            TiledFlipState::AwaitingSecond { frame, .. } => Some(frame),
        }
    }

    /// Takes note of a member's event; once both members had one, the frame comes back.
    pub fn record_member_event(&mut self, member: usize, meta: DrmEventMetadata) -> (done: Option<
        (F, DrmEventMetadata),
    >)
        ensures
            (*final(self), done) == old(self).after_event(member, meta),
    {
        let mut state = TiledFlipState::Idle;
        std::mem::swap(&mut state, self);
        match state {
            TiledFlipState::Idle => None,
            TiledFlipState::AwaitingBoth(frame) => {
                *self =
                TiledFlipState::AwaitingSecond { frame, first_member: member, first_event: meta };
                None
            },
            TiledFlipState::AwaitingSecond { frame, first_member, first_event } => {
                if first_member == member {
                    // Keep the first event. A duplicate from one member must not complete a frame.
                    *self = TiledFlipState::AwaitingSecond { frame, first_member, first_event };
                    None
                } else {
                    let meta = if first_member == 0 {
                        aggregate_member_events(first_event, meta)
                    } else {
                        aggregate_member_events(meta, first_event)
                    };
                    Some((frame, meta))
                }
            },
        }
    }

    /// Gives up the committed frame; returns whether there was one.
    pub fn reset(&mut self) -> (had_frame: bool)
        ensures
            had_frame == old(self).committed() is Some,
            *final(self) is Idle,
    {
        let had_frame = self.has_pending_frame();
        *self = TiledFlipState::Idle;
        had_frame
    }
}

/// Whichever member's event comes first, and however often it is repeated, the frame completes with
/// the other member's event, with the primary's sequence number and the later time.
pub proof fn law_both_event_orders_complete_the_frame<F>(
    frame: F,
    primary: DrmEventMetadata,
    secondary: DrmEventMetadata,
    repeated: DrmEventMetadata,
)
    ensures
        ({
            let start = TiledFlipState::AwaitingBoth(frame);
            let left_first = start.after_event(0, primary).0;
            let right_first = start.after_event(1, secondary).0;
            let done = Some((frame, later_event(primary, secondary)));
            &&& start.after_event(0, primary).1 is None
            &&& start.after_event(1, secondary).1 is None
            &&& left_first.after_event(0, repeated) == (left_first, None::<(F, DrmEventMetadata)>)
            &&& right_first.after_event(1, repeated) == (right_first, None::<(F, DrmEventMetadata)>)
            &&& left_first.after_event(1, secondary) == (TiledFlipState::<F>::Idle, done)
            &&& right_first.after_event(0, primary) == (TiledFlipState::<F>::Idle, done)
        }),
{
}

/// A frame shown by two CRTCs counts as shown when the later of them shows it, by the monotonic
/// clock; other clocks count as the earliest moment. It keeps the sequence number of the primary.
pub proof fn law_a_frame_is_shown_when_its_last_tile_is(
    primary: DrmEventMetadata,
    secondary: DrmEventMetadata,
)
    ensures
        later_event(primary, secondary).sequence == primary.sequence,
        later_event(primary, secondary).time == primary.time || later_event(primary, secondary).time
            == secondary.time,
        primary.time matches DrmEventTime::Monotonic(a) ==> (secondary.time
            matches DrmEventTime::Monotonic(b) ==> later_event(primary, secondary).time
            == DrmEventTime::Monotonic(
            if a >= b {
                a
            } else {
                b
            },
        )),
        primary.time is Realtime && (secondary.time matches DrmEventTime::Monotonic(b) && b > 0)
            ==> later_event(primary, secondary).time == secondary.time,
        secondary.time is Realtime ==> later_event(primary, secondary).time == primary.time,
        secondary.time == DrmEventTime::Monotonic(0) ==> later_event(primary, secondary).time
            == primary.time,
{
}

/// A frame is pending from its commit until both tiles have shown it, and never otherwise.
pub proof fn law_frames_stay_pending_until_both_tiles_show_them<F>(
    frame: F,
    member: usize,
    other: usize,
    first: DrmEventMetadata,
    second: DrmEventMetadata,
)
    requires
        member != other,
    ensures
        ({
            let start = TiledFlipState::AwaitingBoth(frame);
            let halfway = start.after_event(member, first);
            let done = halfway.0.after_event(other, second);
            &&& TiledFlipState::<F>::Idle.committed() is None
            &&& TiledFlipState::<F>::Idle.after_event(member, first).1 is None
            &&& start.committed() == Some(frame)
            &&& halfway.0.committed() == Some(frame)
            &&& halfway.1 is None
            &&& done.0.committed() is None
            &&& done.1 matches Some(shown) && shown.0 == frame
        }),
{
}

} // verus!
