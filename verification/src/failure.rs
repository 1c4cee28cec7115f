//! Failed attempts to form or disable a tiled group, and when they are tried again.

use vstd::hash_map::StringHashMap;
use vstd::prelude::*;

use crate::crtc;

verus! {

/// Delay before the first retry, in nanoseconds.
pub const FIRST_RETRY_DELAY: u128 = 250_000_000;

/// Delay before the second retry, in nanoseconds.
pub const SECOND_RETRY_DELAY: u128 = 1_000_000_000;

/// Delay before the third and last retry, in nanoseconds.
pub const LAST_RETRY_DELAY: u128 = 5_000_000_000;

#[derive(Debug, Clone, Copy, PartialEq, Eq, Structural)]
pub enum TiledFailureClass {
    UntilEnvironmentChange,
    Retryable,
    UntilSessionResume,
}

#[derive(Debug, Clone, Copy, PartialEq, Eq, Structural)]
pub enum TiledFailurePolicy {
    UntilEnvironmentChange,
    /// `retry_at` is a point in time, in nanoseconds.
    Retryable { attempt: u8, retry_at: u128 },
    UntilSessionResume,
}

#[derive(Debug, Clone, Copy, PartialEq, Eq, Structural)]
pub struct TiledFailure {
    pub generation: u64,
    pub policy: TiledFailurePolicy,
}

#[derive(Debug, Clone, Copy, PartialEq, Eq, Structural)]
pub struct TiledRetry {
    pub generation: u64,
    pub attempt: u8,
    /// Time until the retry, in nanoseconds.
    pub delay: u128,
}

/// The failures by group key, and their bounded retry policy.
pub struct TiledFailureTracker {
    entries: StringHashMap<TiledFailure>,
    next_generation: u64,
}

/// The contents of a tracker.
pub struct FailureView {
    pub entries: Map<Seq<char>, TiledFailure>,
    /// The generation of the latest failure.
    pub generation: u64,
}

impl View for TiledFailureTracker {
    type V = FailureView;

    closed spec fn view(&self) -> FailureView {
        FailureView { entries: self.entries@, generation: self.next_generation }
    }
}

/// The delay before the given retry; there are three.
pub open spec fn retry_delay(attempt: int) -> Option<u128> {
    if attempt == 0 {
        Some(FIRST_RETRY_DELAY)
    } else if attempt == 1 {
        Some(SECOND_RETRY_DELAY)
    } else if attempt == 2 {
        Some(LAST_RETRY_DELAY)
    } else {
        None
    }
}

impl FailureView {
    /// The attempt that a retryable failure starts: the one after the last retryable failure of the
    /// same group.
    pub open spec fn next_attempt(self, key: Seq<char>) -> u8 {
        if self.entries.contains_key(key) {
            match self.entries[key].policy {
                TiledFailurePolicy::Retryable { attempt, .. } => if attempt == 255 {
                    255
                } else {
                    (attempt + 1) as u8
                },
                _ => 0,
            }
        } else {
            0
        }
    }

    /// What a failure of the given class means for the group.
    pub open spec fn policy_for(
        self,
        key: Seq<char>,
        class: TiledFailureClass,
        now: u128,
    ) -> TiledFailurePolicy {
        match class {
            TiledFailureClass::UntilEnvironmentChange => TiledFailurePolicy::UntilEnvironmentChange,
            TiledFailureClass::UntilSessionResume => TiledFailurePolicy::UntilSessionResume,
            TiledFailureClass::Retryable => match retry_delay(self.next_attempt(key) as int) {
                Some(delay) => TiledFailurePolicy::Retryable {
                    attempt: self.next_attempt(key),
                    retry_at: (now + delay) as u128,
                },
                None => TiledFailurePolicy::UntilEnvironmentChange,
            },
        }
    }

    /// The state after a failure.
    pub open spec fn recorded(
        self,
        key: Seq<char>,
        class: TiledFailureClass,
        now: u128,
    ) -> FailureView {
        let generation = crtc::following(self.generation);
        FailureView {
            entries: self.entries.insert(
                key,
                TiledFailure { generation, policy: self.policy_for(key, class, now) },
            ),
            generation,
        }
    }

    /// The retry that a failure leads to.
    pub open spec fn retry_for(
        self,
        key: Seq<char>,
        class: TiledFailureClass,
        now: u128,
    ) -> Option<TiledRetry> {
        match self.policy_for(key, class, now) {
            TiledFailurePolicy::Retryable { attempt, .. } => Some(
                TiledRetry {
                    generation: crtc::following(self.generation),
                    attempt,
                    delay: retry_delay(attempt as int)->0,
                },
            ),
            _ => None,
        }
    }

    /// Whether the group must not be tried now.
    pub open spec fn blocked(self, key: Seq<char>, now: u128) -> bool {
        self.entries.contains_key(key) && match self.entries[key].policy {
            TiledFailurePolicy::Retryable { retry_at, .. } => now < retry_at,
            _ => true,
        }
    }

    /// Whether the retry of the given generation is due.
    pub open spec fn due(self, key: Seq<char>, generation: u64, now: u128) -> bool {
        self.entries.contains_key(key) && self.entries[key].generation == generation
            && match self.entries[key].policy {
            TiledFailurePolicy::Retryable { retry_at, .. } => now >= retry_at,
            _ => false,
        }
    }
}

impl Default for TiledFailureTracker {
    fn default() -> (tracker: Self)
        ensures
            tracker@.entries == Map::<Seq<char>, TiledFailure>::empty(),
            tracker@.generation == 0,
    {
        TiledFailureTracker { entries: StringHashMap::new(), next_generation: 0 }
    }
}

impl TiledFailureTracker {
    pub fn blocks(&self, key: &str, now: u128) -> (blocked: bool)
        ensures
            blocked == self@.blocked(key@, now),
    {
        match self.entries.get(key) {
            Some(failure) => match failure.policy {
                TiledFailurePolicy::Retryable { retry_at, .. } => now < retry_at,
                _ => true,
            },
            None => false,
        }
    }

    /// Takes note of a failure; returns when to try again, if at all before something else changes.
    pub fn record(&mut self, key: String, class: TiledFailureClass, now: u128) -> (retry: Option<
        TiledRetry,
    >)
        requires
            class is Retryable ==> (retry_delay(old(self)@.next_attempt(key@) as int) matches Some(
                delay,
            ) ==> now + delay <= u128::MAX),
        ensures
            final(self)@ == old(self)@.recorded(key@, class, now),
            retry == old(self)@.retry_for(key@, class, now),
    {
        let mut delay: Option<u128> = None;
        let mut attempt: u8 = 0;
        let policy = match class {
            TiledFailureClass::UntilEnvironmentChange => TiledFailurePolicy::UntilEnvironmentChange,
            TiledFailureClass::UntilSessionResume => TiledFailurePolicy::UntilSessionResume,
            TiledFailureClass::Retryable => {
                attempt = match self.entries.get(key.as_str()) {
                    Some(failure) => match failure.policy {
                        TiledFailurePolicy::Retryable { attempt, .. } => attempt.saturating_add(1),
                        _ => 0,
                    },
                    None => 0,
                };
                delay = if attempt == 0 {
                    Some(FIRST_RETRY_DELAY)
                } else if attempt == 1 {
                    Some(SECOND_RETRY_DELAY)
                } else if attempt == 2 {
                    Some(LAST_RETRY_DELAY)
                } else {
                    None
                };
                match delay {
                    Some(delay) => TiledFailurePolicy::Retryable {
                        attempt,
                        retry_at: now + delay,
                    },
                    None => TiledFailurePolicy::UntilEnvironmentChange,
                }
            },
        };
        self.next_generation = if self.next_generation == u64::MAX {
            1
        } else {
            self.next_generation + 1
        };
        let generation = self.next_generation;
        self.entries.insert(key, TiledFailure { generation, policy });
        match delay {
            Some(delay) => Some(TiledRetry { generation, attempt, delay }),
            None => None,
        }
    }

    pub fn retry_due(&self, key: &str, generation: u64, now: u128) -> (due: bool)
        ensures
            due == self@.due(key@, generation, now),
    {
        match self.entries.get(key) {
            Some(failure) => failure.generation == generation && match failure.policy {
                TiledFailurePolicy::Retryable { retry_at, .. } => now >= retry_at,
                _ => false,
            },
            None => false,
        }
    }

    pub fn policy(&self, key: &str) -> (policy: Option<TiledFailurePolicy>)
        ensures
            policy == (if self@.entries.contains_key(key@) {
                Some(self@.entries[key@].policy)
            } else {
                None
            }),
    {
        match self.entries.get(key) {
            Some(failure) => Some(failure.policy),
            None => None,
        }
    }

    pub fn remove(&mut self, key: &str)
        ensures
            final(self)@.entries == old(self)@.entries.remove(key@),
            final(self)@.generation == old(self)@.generation,
    {
        self.entries.remove(key);
    }

    pub fn clear(&mut self)
        ensures
            final(self)@.entries == Map::<Seq<char>, TiledFailure>::empty(),
            final(self)@.generation == old(self)@.generation,
    {
        self.entries.clear();
    }
}

// ---------------------------------------------------------------------------------------------
// Laws
// ---------------------------------------------------------------------------------------------

/// A group that keeps failing is retried three times, ever later, and then not before the
/// environment changes.
pub proof fn law_retries_are_bounded(
    view: FailureView,
    key: Seq<char>,
    first: u128,
    second: u128,
    third: u128,
    fourth: u128,
    later: u128,
)
    requires
        !view.entries.contains_key(key),
        first + LAST_RETRY_DELAY <= u128::MAX,
        second + LAST_RETRY_DELAY <= u128::MAX,
        third + LAST_RETRY_DELAY <= u128::MAX,
    ensures
        ({
            let class = TiledFailureClass::Retryable;
            let one = view.recorded(key, class, first);
            let two = one.recorded(key, class, second);
            let three = two.recorded(key, class, third);
            let four = three.recorded(key, class, fourth);
            &&& view.retry_for(key, class, first) matches Some(r) && r.delay == FIRST_RETRY_DELAY
            &&& one.retry_for(key, class, second) matches Some(r) && r.delay == SECOND_RETRY_DELAY
            &&& two.retry_for(key, class, third) matches Some(r) && r.delay == LAST_RETRY_DELAY
            &&& three.retry_for(key, class, fourth) is None
            &&& four.entries[key].policy == TiledFailurePolicy::UntilEnvironmentChange
            &&& four.blocked(key, later)
        }),
{
}

/// A retry blocks the group until it is due, and from then on it is due.
pub proof fn law_retry_unblocks_when_due(
    view: FailureView,
    key: Seq<char>,
    now: u128,
    delay: u128,
    later: u128,
)
    requires
        now + LAST_RETRY_DELAY <= u128::MAX,
        view.retry_for(key, TiledFailureClass::Retryable, now) matches Some(retry) && retry.delay
            == delay,
    ensures
        ({
            let after = view.recorded(key, TiledFailureClass::Retryable, now);
            let retry = view.retry_for(key, TiledFailureClass::Retryable, now)->0;
            &&& after.blocked(key, later) <==> later < now + delay
            &&& after.due(key, retry.generation, later) <==> later >= now + delay
        }),
{
}

/// Whether no failure is newer than the latest generation.
pub open spec fn failures_bounded(view: FailureView) -> bool {
    forall|key: Seq<char>| #[trigger]
        view.entries.contains_key(key) ==> view.entries[key].generation <= view.generation
}

/// Once a group failed again, an earlier retry is never due any more, until the generation numbers
/// are used up; nor is any retry of a group that was removed.
pub proof fn law_stale_retries_are_harmless(
    view: FailureView,
    key: Seq<char>,
    class: TiledFailureClass,
    now: u128,
    stale: u64,
    later: u128,
)
    requires
        failures_bounded(view),
        view.generation < u64::MAX,
        stale <= view.generation,
    ensures
        failures_bounded(view.recorded(key, class, now)),
        !view.recorded(key, class, now).due(key, stale, later),
        !(FailureView { entries: view.entries.remove(key), generation: view.generation }).due(
            key,
            stale,
            later,
        ),
{
}

/// Failures that wait for a change of the environment or for the session to resume block the group
/// at all times.
pub proof fn law_persistent_failures_block_at_all_times(
    view: FailureView,
    key: Seq<char>,
    class: TiledFailureClass,
    now: u128,
    later: u128,
)
    requires
        !(class is Retryable),
    ensures
        view.recorded(key, class, now).blocked(key, later),
        view.retry_for(key, class, now) is None,
{
}

/// A failure of one group changes nothing for another.
pub proof fn law_failures_are_kept_apart(
    view: FailureView,
    key: Seq<char>,
    class: TiledFailureClass,
    now: u128,
    other: Seq<char>,
    generation: u64,
    later: u128,
)
    requires
        other != key,
    ensures
        view.recorded(key, class, now).blocked(other, later) == view.blocked(other, later),
        view.recorded(key, class, now).due(other, generation, later) == view.due(
            other,
            generation,
            later,
        ),
{
}

/// A failure that may pass is tried again after a quarter of a second, then after one second, then
/// after five, and then no more.
pub proof fn law_retry_delays_grow(attempt: int)
    ensures
        retry_delay(0) == Some(250_000_000u128),
        retry_delay(1) == Some(1_000_000_000u128),
        retry_delay(2) == Some(5_000_000_000u128),
        attempt < 0 || attempt > 2 ==> retry_delay(attempt) is None,
{
}

/// What is recorded of a failure is its class; a retryable one is remembered with the number of the
/// attempt and the time of the next, counted from now. Every record has a generation of its own.
pub proof fn law_failures_are_recorded_as_what_they_are(
    view: FailureView,
    key: Seq<char>,
    class: TiledFailureClass,
    now: u128,
)
    requires
        now + 5_000_000_000 <= u128::MAX,
    ensures
        ({
            let after = view.recorded(key, class, now);
            let policy = after.entries[key].policy;
            &&& after.entries.contains_key(key)
            &&& after.entries[key].generation == after.generation
            &&& view.generation < u64::MAX ==> after.generation == view.generation + 1
            &&& class is UntilEnvironmentChange ==> policy is UntilEnvironmentChange
            &&& class is UntilSessionResume ==> policy is UntilSessionResume
            &&& class is Retryable ==> policy is Retryable || policy is UntilEnvironmentChange
            &&& policy matches TiledFailurePolicy::Retryable { attempt, retry_at } ==> {
                &&& class is Retryable
                &&& attempt == 0 && retry_at == now + 250_000_000 || attempt == 1 && retry_at == now
                    + 1_000_000_000 || attempt == 2 && retry_at == now + 5_000_000_000
                &&& view.retry_for(key, class, now) matches Some(retry) && retry.attempt == attempt
                    && retry.delay == retry_at - now && retry.generation == after.generation
            }
            &&& !(policy is Retryable) ==> view.retry_for(key, class, now) is None
        }),
{
}

/// A failure that is not retryable, or none at all, starts the count of attempts anew.
pub proof fn law_attempts_count_consecutive_retryable_failures(view: FailureView, key: Seq<char>)
    ensures
        !view.entries.contains_key(key) ==> view.next_attempt(key) == 0,
        view.entries.contains_key(key) && !(view.entries[key].policy is Retryable)
            ==> view.next_attempt(key) == 0,
        view.entries.contains_key(key) ==> (view.entries[key].policy
            matches TiledFailurePolicy::Retryable { attempt, .. } ==> (attempt < 255
            ==> view.next_attempt(key) == attempt + 1)),
{
}

} // verus!
