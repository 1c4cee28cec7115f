//! Which validation a commit may rely on.

use vstd::prelude::*;

verus! {

#[derive(Debug, Clone, Copy, PartialEq, Eq, Structural)]
pub enum TiledCommitState {
    NeedsValidation,
    ValidatedNeedsModeset,
    Active,
}

/// How far commits have got, and what the last validation was for.
#[derive(Debug)]
pub struct TiledCommitTracker<F> {
    pub state: TiledCommitState,
    pub validated: Option<F>,
}

impl<F> Default for TiledCommitTracker<F> {
    fn default() -> (tracker: Self)
        ensures
            tracker.is_reset(),
    {
        TiledCommitTracker { state: TiledCommitState::NeedsValidation, validated: None }
    }
}

impl<F> TiledCommitTracker<F> {
    /// What counts as validated says what for.
    pub open spec fn wf(self) -> bool {
        self.state != TiledCommitState::NeedsValidation ==> self.validated is Some
    }

    /// Whether nothing is validated.
    pub open spec fn is_reset(self) -> bool {
        self.state == TiledCommitState::NeedsValidation && self.validated is None
    }

    /// Whether `after` is the state once it is known whether the last validation still `fits`.
    pub open spec fn prepares(self, after: Self, fits: bool) -> bool {
        if self.state == TiledCommitState::NeedsValidation || (self.validated is Some && fits) {
            after == self
        } else {
            after.is_reset()
        }
    }

    /// Drops the last validation unless it is for what is to be committed.
    pub fn prepare<M: FnOnce(&F) -> bool>(&mut self, matches: M) -> (state: TiledCommitState)
        requires
            old(self).validated matches Some(f) ==> call_requires(matches, (&f,)),
        ensures
            state == final(self).state,
            exists|fits: bool| #[trigger]
                old(self).prepares(*final(self), fits) && (old(self).state
                    != TiledCommitState::NeedsValidation ==> (old(self).validated matches Some(f)
                    ==> call_ensures(matches, (&f,), fits))),
    {
        if self.state != TiledCommitState::NeedsValidation {
            let fits = match &self.validated {
                Some(validated) => matches(validated),
                None => false,
            };
            assert(old(self).validated matches Some(f) ==> call_ensures(matches, (&f,), fits));
            if !fits {
                self.reset();
            }
            assert(old(self).prepares(*self, fits));
        } else {
            assert(old(self).prepares(*self, false));
        }
        self.state
    }

    /// Takes note of a successful validation.
    pub fn validated(&mut self, fingerprint: F)
        ensures
            final(self).state == TiledCommitState::ValidatedNeedsModeset,
            final(self).validated == Some(fingerprint),
    {
        self.validated = Some(fingerprint);
        self.state = TiledCommitState::ValidatedNeedsModeset;
    }

    /// Takes note of a successful modeset, which follows a validation.
    pub fn activated(&mut self)
        requires
            old(self).state == TiledCommitState::ValidatedNeedsModeset,
        ensures
            final(self).state == TiledCommitState::Active,
            final(self).validated == old(self).validated,
    {
        self.state = TiledCommitState::Active;
    }

    pub fn reset(&mut self)
        ensures
            final(self).is_reset(),
    {
        self.validated = None;
        self.state = TiledCommitState::NeedsValidation;
    }
}

/// A commit relies on an earlier validation only where that was for exactly what is committed; else
/// validation starts over.
pub proof fn law_only_a_fitting_validation_is_reused<F>(
    before: TiledCommitTracker<F>,
    after: TiledCommitTracker<F>,
    fits: bool,
)
    requires
        before.wf(),
        before.prepares(after, fits),
    ensures
        after.wf(),
        after.state != TiledCommitState::NeedsValidation ==> fits && after == before,
        !fits ==> after.state == TiledCommitState::NeedsValidation,
{
}

/// A commit keeps the validation that fits, and one that still needs validation stays as it is; only
/// a validation that does not fit is given up.
pub proof fn law_a_fitting_validation_is_kept<F>(
    before: TiledCommitTracker<F>,
    after: TiledCommitTracker<F>,
    fits: bool,
)
    requires
        before.wf(),
        before.prepares(after, fits),
    ensures
        fits ==> after == before,
        before.state == TiledCommitState::NeedsValidation ==> after == before,
        !fits && before.state != TiledCommitState::NeedsValidation ==> after.validated is None
            && after.state == TiledCommitState::NeedsValidation,
{
}

} // verus!
