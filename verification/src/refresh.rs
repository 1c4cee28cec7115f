//! Common refresh selection for the members of a group.

use vstd::prelude::*;

use crate::layout::MAX_GROUP_MEMBERS;

verus! {

pub const STRICT_REFRESH_TOLERANCE_MILLIHZ: u32 = 5;

pub const RELAXED_REFRESH_TOLERANCE_MILLIHZ: u32 = 100;

#[derive(Debug, Clone, Copy, PartialEq, Eq, Structural)]
pub enum RefreshSync {
    Strict,
    Relaxed,
}

impl Default for RefreshSync {
    fn default() -> (policy: Self)
        ensures
            policy == RefreshSync::Strict,
    {
        RefreshSync::Strict
    }
}

impl RefreshSync {
    pub open spec fn tolerance(self) -> u32 {
        match self {
            RefreshSync::Strict => STRICT_REFRESH_TOLERANCE_MILLIHZ,
            RefreshSync::Relaxed => RELAXED_REFRESH_TOLERANCE_MILLIHZ,
        }
    }

    /// How far apart the members' refresh rates may be.
    pub fn tolerance_millihz(self) -> (millihz: u32)
        ensures
            millihz == self.tolerance(),
            self is Strict ==> millihz == 5,
            self is Relaxed ==> millihz == 100,
    {
        match self {
            RefreshSync::Strict => STRICT_REFRESH_TOLERANCE_MILLIHZ,
            RefreshSync::Relaxed => RELAXED_REFRESH_TOLERANCE_MILLIHZ,
        }
    }
}

#[derive(Debug, Clone, Copy, PartialEq, Eq, Structural)]
pub struct RefreshMode {
    pub millihz: u32,
    pub preferred: bool,
}

// ---------------------------------------------------------------------------------------------
// Model
// ---------------------------------------------------------------------------------------------

/// Distance between two rates.
pub open spec fn rate_gap(a: u32, b: u32) -> int {
    if a >= b {
        a - b
    } else {
        b - a
    }
}

/// Whether `a` serves `target` at least as well as `b`: closer, then preferred, then faster.
pub open spec fn serves_better(a: RefreshMode, b: RefreshMode, target: u32) -> bool {
    ||| rate_gap(a.millihz, target) < rate_gap(b.millihz, target)
    ||| {
        &&& rate_gap(a.millihz, target) == rate_gap(b.millihz, target)
        &&& {
            ||| a.preferred && !b.preferred
            ||| a.preferred == b.preferred && a.millihz >= b.millihz
        }
    }
}

/// Whether `m` is the mode of `list` that serves `target` best within the tolerance.
pub open spec fn is_best_mode(
    list: Seq<RefreshMode>,
    target: u32,
    tolerance: u32,
    m: RefreshMode,
) -> bool {
    &&& list.contains(m)
    &&& rate_gap(m.millihz, target) <= tolerance
    &&& forall|k: int|
        0 <= k < list.len() && rate_gap((#[trigger] list[k]).millihz, target) <= tolerance
            ==> serves_better(m, list[k], target)
}

/// Whether `selected` holds the best mode of every member for `target`.
pub open spec fn selects(
    lists: Seq<Seq<RefreshMode>>,
    target: u32,
    tolerance: u32,
    selected: Seq<RefreshMode>,
) -> bool {
    &&& selected.len() == lists.len()
    &&& forall|i: int|
        0 <= i < lists.len() ==> is_best_mode(
            #[trigger] lists[i],
            target,
            tolerance,
            selected[i],
        )
}

/// Lowest rate of a selection.
pub open spec fn slowest(selected: Seq<RefreshMode>) -> u32
    decreases selected.len(),
{
    if selected.len() == 0 {
        u32::MAX
    } else {
        let rest = slowest(selected.drop_last());
        if selected.last().millihz < rest {
            selected.last().millihz
        } else {
            rest
        }
    }
}

/// Highest rate of a selection.
pub open spec fn fastest(selected: Seq<RefreshMode>) -> u32
    decreases selected.len(),
{
    if selected.len() == 0 {
        0
    } else {
        let rest = fastest(selected.drop_last());
        if selected.last().millihz > rest {
            selected.last().millihz
        } else {
            rest
        }
    }
}

/// How many modes of a selection are preferred.
pub open spec fn preferred_count(selected: Seq<RefreshMode>) -> int
    decreases selected.len(),
{
    if selected.len() == 0 {
        0
    } else {
        preferred_count(selected.drop_last()) + if selected.last().preferred {
            1int
        } else {
            0int
        }
    }
}

/// Distance between the fastest and the slowest member of a selection.
pub open spec fn spread(selected: Seq<RefreshMode>) -> int {
    fastest(selected) - slowest(selected)
}

/// Whether some member advertises the rate.
pub open spec fn advertised(lists: Seq<Seq<RefreshMode>>, rate: u32) -> bool {
    exists|i: int, k: int|
        0 <= i < lists.len() && 0 <= k < lists[i].len() && (#[trigger] lists[i][k]).millihz == rate
}

/// Whether `selected` is a compatible selection around the advertised rate `target`.
pub open spec fn is_offer(
    lists: Seq<Seq<RefreshMode>>,
    tolerance: u32,
    target: u32,
    selected: Seq<RefreshMode>,
) -> bool {
    &&& advertised(lists, target)
    &&& selects(lists, target, tolerance, selected)
    &&& spread(selected) <= tolerance
}

/// How many modes of a selection are preferred, where all members run at one and the same rate.
/// A preferred mode that the members do not share does not count.
pub open spec fn common_preferred(selected: Seq<RefreshMode>) -> int {
    if spread(selected) == 0 {
        preferred_count(selected)
    } else {
        0
    }
}

/// Whether offer `(s, t)` ranks at least as high as offer `(o, u)`: more common preferred modes,
/// then a faster pacing rate, then a smaller spread, then the higher target.
pub open spec fn ranks_over(s: Seq<RefreshMode>, t: u32, o: Seq<RefreshMode>, u: u32) -> bool {
    ||| common_preferred(s) > common_preferred(o)
    ||| {
        &&& common_preferred(s) == common_preferred(o)
        &&& {
            ||| slowest(s) > slowest(o)
            ||| {
                &&& slowest(s) == slowest(o)
                &&& {
                    ||| spread(s) < spread(o)
                    ||| spread(s) == spread(o) && t >= u
                }
            }
        }
    }
}

/// Whether `(s, t)` is the highest-ranking offer.
pub open spec fn is_top_offer(
    lists: Seq<Seq<RefreshMode>>,
    tolerance: u32,
    t: u32,
    s: Seq<RefreshMode>,
) -> bool {
    &&& is_offer(lists, tolerance, t, s)
    &&& forall|u: u32, o: Seq<RefreshMode>| #[trigger]
        is_offer(lists, tolerance, u, o) ==> ranks_over(s, t, o, u)
}

/// Whether `s` is the group's common refresh.
pub open spec fn is_common_refresh(
    lists: Seq<Seq<RefreshMode>>,
    policy: RefreshSync,
    s: Seq<RefreshMode>,
) -> bool {
    &&& 2 <= lists.len() <= MAX_GROUP_MEMBERS
    &&& exists|t: u32| #[trigger] is_top_offer(lists, policy.tolerance(), t, s)
}

/// The group's common refresh, one mode per member, if there is one.
pub open spec fn common_refresh(lists: Seq<Seq<RefreshMode>>, policy: RefreshSync) -> Option<
    Seq<RefreshMode>,
> {
    if exists|s: Seq<RefreshMode>| is_common_refresh(lists, policy, s) {
        Some(choose|s: Seq<RefreshMode>| is_common_refresh(lists, policy, s))
    } else {
        None
    }
}

/// The contents of a list of mode lists.
pub open spec fn mode_lists(modes: Seq<Vec<RefreshMode>>) -> Seq<Seq<RefreshMode>> {
    Seq::new(modes.len(), |i: int| modes[i]@)
}

// ---------------------------------------------------------------------------------------------
// Lemmas
// ---------------------------------------------------------------------------------------------

proof fn lemma_best_mode_unique(
    list: Seq<RefreshMode>,
    target: u32,
    tolerance: u32,
    a: RefreshMode,
    b: RefreshMode,
)
    requires
        is_best_mode(list, target, tolerance, a),
        is_best_mode(list, target, tolerance, b),
    ensures
        a == b,
{
    let i = choose|i: int| 0 <= i < list.len() && list[i] == a;
    let j = choose|j: int| 0 <= j < list.len() && list[j] == b;
    assert(serves_better(a, list[j], target));
    assert(serves_better(b, list[i], target));
}

proof fn lemma_selection_unique(
    lists: Seq<Seq<RefreshMode>>,
    target: u32,
    tolerance: u32,
    s: Seq<RefreshMode>,
    o: Seq<RefreshMode>,
)
    requires
        selects(lists, target, tolerance, s),
        selects(lists, target, tolerance, o),
    ensures
        s == o,
{
    assert forall|i: int| 0 <= i < s.len() implies s[i] == o[i] by {
        assert(is_best_mode(lists[i], target, tolerance, s[i]));
        assert(is_best_mode(lists[i], target, tolerance, o[i]));
        lemma_best_mode_unique(lists[i], target, tolerance, s[i], o[i]);
    }
    assert(s =~= o);
}

/// There is at most one common refresh.
pub proof fn law_common_refresh_is_unique(
    lists: Seq<Seq<RefreshMode>>,
    policy: RefreshSync,
    s: Seq<RefreshMode>,
    o: Seq<RefreshMode>,
)
    requires
        is_common_refresh(lists, policy, s),
        is_common_refresh(lists, policy, o),
    ensures
        s == o,
{
    let tol = policy.tolerance();
    let t = choose|t: u32| #[trigger] is_top_offer(lists, tol, t, s);
    let u = choose|u: u32| #[trigger] is_top_offer(lists, tol, u, o);
    assert(is_offer(lists, tol, t, s));
    assert(is_offer(lists, tol, u, o));
    assert(ranks_over(s, t, o, u));
    assert(ranks_over(o, u, s, t));
    assert(t == u);
    lemma_selection_unique(lists, t, tol, s, o);
}

proof fn lemma_rate_bounds(s: Seq<RefreshMode>)
    ensures
        forall|i: int|
            0 <= i < s.len() ==> slowest(s) <= (#[trigger] s[i]).millihz <= fastest(s),
        s.len() > 0 ==> exists|i: int| 0 <= i < s.len() && (#[trigger] s[i]).millihz == slowest(s),
        s.len() > 0 ==> exists|i: int| 0 <= i < s.len() && (#[trigger] s[i]).millihz == fastest(s),
    decreases s.len(),
{
    if s.len() > 0 {
        let rest = s.drop_last();
        lemma_rate_bounds(rest);
        assert forall|i: int| 0 <= i < s.len() implies slowest(s) <= (#[trigger] s[i]).millihz
            <= fastest(s) by {
            if i < rest.len() {
                assert(rest[i] == s[i]);
            }
        }
        assert(s[s.len() - 1] == s.last());
        if rest.len() > 0 {
            let a = choose|i: int| 0 <= i < rest.len() && (#[trigger] rest[i]).millihz == slowest(
                rest,
            );
            let b = choose|i: int| 0 <= i < rest.len() && (#[trigger] rest[i]).millihz == fastest(
                rest,
            );
            assert(s[a] == rest[a]);
            assert(s[b] == rest[b]);
        }
    }
}

// ---------------------------------------------------------------------------------------------
// Selection
// ---------------------------------------------------------------------------------------------

fn gap(a: u32, b: u32) -> (distance: u32)
    ensures
        distance == rate_gap(a, b),
{
    if a >= b {
        a - b
    } else {
        b - a
    }
}

/// The mode of one member that serves `target` best, if any is within the tolerance.
fn best_mode(list: &Vec<RefreshMode>, target: u32, tolerance: u32) -> (best: Option<RefreshMode>)
    ensures
        match best {
            Some(m) => is_best_mode(list@, target, tolerance, m),
            None => forall|k: int|
                0 <= k < list@.len() ==> rate_gap((#[trigger] list@[k]).millihz, target)
                    > tolerance,
        },
{
    let mut best: Option<RefreshMode> = None;
    for i in 0..list.len()
        invariant
            match best {
                Some(m) => {
                    &&& exists|k: int| 0 <= k < i && #[trigger] list@[k] == m
                    &&& rate_gap(m.millihz, target) <= tolerance
                    &&& forall|k: int|
                        0 <= k < i && rate_gap((#[trigger] list@[k]).millihz, target) <= tolerance
                            ==> serves_better(m, list@[k], target)
                },
                None => forall|k: int|
                    0 <= k < i ==> rate_gap((#[trigger] list@[k]).millihz, target) > tolerance,
            },
    {
        let mode = list[i];
        assert(list@[i as int] == mode);
        let mode_gap = gap(mode.millihz, target);
        if mode_gap <= tolerance {
            match best {
                None => {
                    best = Some(mode);
                },
                Some(m) => {
                    let best_gap = gap(m.millihz, target);
                    if mode_gap < best_gap || (mode_gap == best_gap && ((mode.preferred
                        && !m.preferred) || (mode.preferred == m.preferred && mode.millihz
                        > m.millihz))) {
                        best = Some(mode);
                    }
                },
            }
        }
    }
    best
}

/// The best mode of every member for `target`, if every member has one.
fn select_around(modes: &[Vec<RefreshMode>], target: u32, tolerance: u32) -> (selected: Option<
    Vec<RefreshMode>,
>)
    ensures
        match selected {
            Some(s) => selects(mode_lists(modes@), target, tolerance, s@),
            None => forall|o: Seq<RefreshMode>|
                !#[trigger] selects(mode_lists(modes@), target, tolerance, o),
        },
{
    let ghost lists = mode_lists(modes@);
    let mut selected: Vec<RefreshMode> = Vec::new();
    for i in 0..modes.len()
        invariant
            lists == mode_lists(modes@),
            selected@.len() == i,
            forall|k: int|
                0 <= k < i ==> is_best_mode(#[trigger] lists[k], target, tolerance, selected@[k]),
    {
        match best_mode(&modes[i], target, tolerance) {
            Some(m) => {
                selected.push(m);
            },
            None => {
                proof {
                    assert(lists[i as int] == modes@[i as int]@);
                    assert forall|o: Seq<RefreshMode>| !#[trigger] selects(
                        lists,
                        target,
                        tolerance,
                        o,
                    ) by {
                        if selects(lists, target, tolerance, o) {
                            assert(is_best_mode(lists[i as int], target, tolerance, o[i as int]));
                        }
                    }
                }
                return None;
            },
        }
    }
    Some(selected)
}

/// The slowest rate, the fastest rate and the number of common preferred modes of a selection.
fn summarize(selected: &Vec<RefreshMode>) -> (summary: (u32, u32, usize))
    ensures
        summary.0 == slowest(selected@),
        summary.1 == fastest(selected@),
        summary.2 == common_preferred(selected@),
{
    let mut low: u32 = u32::MAX;
    let mut high: u32 = 0;
    let mut preferred: usize = 0;
    for i in 0..selected.len()
        invariant
            low == slowest(selected@.take(i as int)),
            high == fastest(selected@.take(i as int)),
            preferred == preferred_count(selected@.take(i as int)),
            preferred <= i,
    {
        let mode = selected[i];
        assert(selected@.take(i + 1).drop_last() =~= selected@.take(i as int));
        assert(selected@.take(i + 1).last() == mode);
        if mode.millihz < low {
            low = mode.millihz;
        }
        if mode.millihz > high {
            high = mode.millihz;
        }
        if mode.preferred {
            preferred = preferred + 1;
        }
    }
    assert(selected@.take(selected@.len() as int) =~= selected@);
    (
        low,
        high,
        if low == high {
            preferred
        } else {
            0
        },
    )
}

/// Whether the rate occurs before place `k` of list `i`, lists being read in order.
spec fn seen(lists: Seq<Seq<RefreshMode>>, i: int, k: int, rate: u32) -> bool {
    exists|a: int, b: int|
        0 <= a < lists.len() && 0 <= b < lists[a].len() && (a < i || (a == i && b < k)) && (
        #[trigger] lists[a][b]).millihz == rate
}

/// Whether `best` is the highest-ranking offer among the rates seen so far.
spec fn leads(
    lists: Seq<Seq<RefreshMode>>,
    tolerance: u32,
    i: int,
    k: int,
    best: Option<(Seq<RefreshMode>, u32)>,
) -> bool {
    match best {
        Some((s, t)) => {
            &&& is_offer(lists, tolerance, t, s)
            &&& forall|u: u32, o: Seq<RefreshMode>| #[trigger]
                is_offer(lists, tolerance, u, o) && seen(lists, i, k, u) ==> ranks_over(s, t, o, u)
        },
        None => forall|u: u32, o: Seq<RefreshMode>| #[trigger]
            is_offer(lists, tolerance, u, o) ==> !seen(lists, i, k, u),
    }
}

/// The contents of the best offer so far.
spec fn offer_view(best: Option<(Vec<RefreshMode>, u32)>) -> Option<(Seq<RefreshMode>, u32)> {
    match best {
        Some((s, t)) => Some((s@, t)),
        None => None,
    }
}

proof fn lemma_seen_next(lists: Seq<Seq<RefreshMode>>, i: int, k: int)
    requires
        0 <= i < lists.len(),
        0 <= k < lists[i].len(),
    ensures
        forall|u: u32| #[trigger]
            seen(lists, i, k + 1, u) ==> u == lists[i][k].millihz || seen(lists, i, k, u),
{
    assert forall|u: u32| #[trigger] seen(lists, i, k + 1, u) implies u == lists[i][k].millihz
        || seen(lists, i, k, u) by {
        let (a, b) = choose|a: int, b: int|
            0 <= a < lists.len() && 0 <= b < lists[a].len() && (a < i || (a == i && b < k + 1)) && (
            #[trigger] lists[a][b]).millihz == u;
        if !(a == i && b == k) {
            assert(lists[a][b].millihz == u);
        }
    }
}

proof fn lemma_seen_list(lists: Seq<Seq<RefreshMode>>, i: int)
    requires
        0 <= i < lists.len(),
    ensures
        forall|u: u32| #[trigger]
            seen(lists, i + 1, 0, u) ==> seen(lists, i, lists[i].len() as int, u),
{
    assert forall|u: u32| #[trigger] seen(lists, i + 1, 0, u) implies seen(
        lists,
        i,
        lists[i].len() as int,
        u,
    ) by {
        let (a, b) = choose|a: int, b: int|
            0 <= a < lists.len() && 0 <= b < lists[a].len() && (a < i + 1 || (a == i + 1 && b < 0))
                && (#[trigger] lists[a][b]).millihz == u;
        assert(lists[a][b].millihz == u);
    }
}

proof fn lemma_seen_all(lists: Seq<Seq<RefreshMode>>)
    ensures
        forall|u: u32| #[trigger] advertised(lists, u) ==> seen(lists, lists.len() as int, 0, u),
{
    assert forall|u: u32| #[trigger] advertised(lists, u) implies seen(
        lists,
        lists.len() as int,
        0,
        u,
    ) by {
        let (a, b) = choose|a: int, b: int|
            0 <= a < lists.len() && 0 <= b < lists[a].len() && (#[trigger] lists[a][b]).millihz
                == u;
        assert(lists[a][b].millihz == u);
    }
}

/// Among the rates seen so far one offer leads, if there is any offer at all.
proof fn lemma_leader(lists: Seq<Seq<RefreshMode>>, tolerance: u32, i: int, k: int) -> (best: Option<
    (Seq<RefreshMode>, u32),
>)
    requires
        0 <= i <= lists.len(),
        i == lists.len() ==> k == 0,
        i < lists.len() ==> 0 <= k <= lists[i].len(),
    ensures
        leads(lists, tolerance, i, k, best),
    decreases i, k,
{
    if k > 0 {
        let prior = lemma_leader(lists, tolerance, i, k - 1);
        lemma_seen_next(lists, i, k - 1);
        let target = lists[i][k - 1].millihz;
        if exists|o: Seq<RefreshMode>| is_offer(lists, tolerance, target, o) {
            let o = choose|o: Seq<RefreshMode>| is_offer(lists, tolerance, target, o);
            assert forall|p: Seq<RefreshMode>| #[trigger]
                is_offer(lists, tolerance, target, p) implies p == o by {
                lemma_selection_unique(lists, target, tolerance, p, o);
            }
            match prior {
                Some((s, t)) => if ranks_over(s, t, o, target) {
                    prior
                } else {
                    Some((o, target))
                },
                None => Some((o, target)),
            }
        } else {
            prior
        }
    } else if i > 0 {
        let prior = lemma_leader(lists, tolerance, i - 1, lists[i - 1].len() as int);
        lemma_seen_list(lists, i - 1);
        prior
    } else {
        None
    }
}

/// Picks one compatible refresh for every member, preferring common preferred modes and then the
/// highest pacing rate. Where both are equal, the members are as close together as possible. The
/// search covers every advertised rate, so independently preferred modes do not hide a shared one.
pub fn choose_common_refresh(modes: &[Vec<RefreshMode>], policy: RefreshSync) -> (chosen: Option<
    Vec<RefreshMode>,
>)
    ensures
        match chosen {
            Some(s) => is_common_refresh(mode_lists(modes@), policy, s@) && common_refresh(
                mode_lists(modes@),
                policy,
            ) == Some(s@),
            None => common_refresh(mode_lists(modes@), policy) is None && (2 <= modes@.len()
                <= MAX_GROUP_MEMBERS ==> forall|u: u32, o: Seq<RefreshMode>|
                !#[trigger] is_offer(mode_lists(modes@), policy.tolerance(), u, o)),
        },
{
    if modes.len() < 2 || modes.len() > MAX_GROUP_MEMBERS {
        return None;
    }
    let ghost lists = mode_lists(modes@);
    let tolerance = policy.tolerance_millihz();
    let mut best: Option<(Vec<RefreshMode>, u32)> = None;
    for i in 0..modes.len()
        invariant
            lists == mode_lists(modes@),
            leads(lists, tolerance, i as int, 0, offer_view(best)),
    {
        assert(lists[i as int] == modes@[i as int]@);
        let count: usize = modes[i].len();
        for k in 0..count
            invariant
                count == lists[i as int].len(),
                lists == mode_lists(modes@),
                i < modes@.len(),
                lists[i as int] == modes@[i as int]@,
                leads(lists, tolerance, i as int, k as int, offer_view(best)),
        {
            let target = modes[i][k].millihz;
            assert(lists[i as int][k as int].millihz == target);
            assert(advertised(lists, target));
            proof {
                lemma_seen_next(lists, i as int, k as int);
            }
            match select_around(modes, target, tolerance) {
                None => {},
                Some(selected) => {
                    let (low, high, preferred) = summarize(&selected);
                    proof {
                        lemma_rate_bounds(selected@);
                        assert(low <= selected@[0].millihz <= high);
                        assert forall|o: Seq<RefreshMode>| #[trigger]
                            is_offer(lists, tolerance, target, o) implies o == selected@ by {
                            lemma_selection_unique(lists, target, tolerance, o, selected@);
                        }
                    }
                    if high - low <= tolerance {
                        assert(is_offer(lists, tolerance, target, selected@));
                        let replace = match &best {
                            None => true,
                            Some((s, t)) => {
                                let (best_low, best_high, best_preferred) = summarize(s);
                                proof {
                                    lemma_rate_bounds(s@);
                                    assert(best_low <= s@[0].millihz <= best_high);
                                }
                                let wide = high - low;
                                let best_wide = best_high - best_low;
                                preferred > best_preferred || (preferred == best_preferred && (low
                                    > best_low || (low == best_low && (wide < best_wide || (wide
                                    == best_wide && target >= *t)))))
                            },
                        };
                        if replace {
                            best = Some((selected, target));
                        }
                    }
                },
            }
        }
        proof {
            lemma_seen_list(lists, i as int);
        }
    }
    proof {
        lemma_seen_all(lists);
    }
    match best {
        Some((selected, t)) => {
            proof {
                assert(is_top_offer(lists, tolerance, t, selected@));
                assert(is_common_refresh(lists, policy, selected@));
                let c = choose|s: Seq<RefreshMode>| is_common_refresh(lists, policy, s);
                law_common_refresh_is_unique(lists, policy, c, selected@);
            }
            Some(selected)
        },
        None => None,
    }
}

/// The interval between refreshes of a logical output: `1000 / millihz` seconds.
#[derive(Debug, Clone, Copy, PartialEq, Eq, Structural)]
pub struct RefreshInterval {
    pub millihz: u32,
}

/// Refresh interval reported for the logical output. Groups pace at the slowest selected member,
/// even when a faster member is the only one submitted for a particular frame.
pub fn pacing_refresh_interval(selected: &[RefreshMode]) -> (interval: Option<RefreshInterval>)
    ensures
        match interval {
            Some(i) => {
                &&& i.millihz != 0
                &&& exists|k: int|
                    0 <= k < selected@.len() && (#[trigger] selected@[k]).millihz == i.millihz
                &&& forall|k: int|
                    0 <= k < selected@.len() ==> i.millihz <= (#[trigger] selected@[k]).millihz
            },
            None => selected@.len() == 0 || exists|k: int|
                0 <= k < selected@.len() && (#[trigger] selected@[k]).millihz == 0,
        },
{
    if selected.len() == 0 {
        return None;
    }
    let mut low: u32 = selected[0].millihz;
    for i in 0..selected.len()
        invariant
            selected@.len() > 0,
            exists|k: int| 0 <= k < selected@.len() && (#[trigger] selected@[k]).millihz == low,
            forall|k: int| 0 <= k < i ==> low <= (#[trigger] selected@[k]).millihz,
    {
        if selected[i].millihz < low {
            low = selected[i].millihz;
        }
    }
    if low == 0 {
        None
    } else {
        Some(RefreshInterval { millihz: low })
    }
}

// ---------------------------------------------------------------------------------------------
// Laws
// ---------------------------------------------------------------------------------------------

/// Every member of a common refresh uses a mode that it advertises, and no two members are further
/// apart than the tolerance.
pub proof fn law_common_refresh_is_compatible(
    lists: Seq<Seq<RefreshMode>>,
    policy: RefreshSync,
    s: Seq<RefreshMode>,
)
    requires
        is_common_refresh(lists, policy, s),
    ensures
        s.len() == lists.len(),
        forall|i: int| 0 <= i < s.len() ==> (#[trigger] lists[i]).contains(s[i]),
        forall|i: int, j: int|
            0 <= i < s.len() && 0 <= j < s.len() ==> rate_gap(
                (#[trigger] s[i]).millihz,
                (#[trigger] s[j]).millihz,
            ) <= policy.tolerance(),
{
    let t = choose|t: u32| #[trigger] is_top_offer(lists, policy.tolerance(), t, s);
    assert(selects(lists, t, policy.tolerance(), s));
    lemma_rate_bounds(s);
    assert forall|i: int| 0 <= i < s.len() implies (#[trigger] lists[i]).contains(s[i]) by {
        assert(is_best_mode(lists[i], t, policy.tolerance(), s[i]));
    }
}

/// A group with any compatible selection at all has a common refresh.
pub proof fn law_any_offer_yields_a_common_refresh(
    lists: Seq<Seq<RefreshMode>>,
    policy: RefreshSync,
    target: u32,
    s: Seq<RefreshMode>,
)
    requires
        2 <= lists.len() <= MAX_GROUP_MEMBERS,
        is_offer(lists, policy.tolerance(), target, s),
    ensures
        common_refresh(lists, policy) is Some,
        is_common_refresh(lists, policy, common_refresh(lists, policy)->0),
{
    let tol = policy.tolerance();
    let best = lemma_leader(lists, tol, lists.len() as int, 0);
    lemma_seen_all(lists);
    assert(best is Some);
    let (o, t) = best->0;
    assert(is_top_offer(lists, tol, t, o));
    assert(is_common_refresh(lists, policy, o));
}

/// Whether the member advertises the rate.
pub open spec fn offers_rate(list: Seq<RefreshMode>, rate: u32) -> bool {
    exists|k: int| 0 <= k < list.len() && (#[trigger] list[k]).millihz == rate
}

/// Preferred modes never hide a rate that every member advertises: the group then always finds a
/// common refresh, and it is not slower than the shared rate unless all members run at one and the
/// same rate that one of them prefers. A group that paces at the shared rate runs at it throughout.
#[verifier::spinoff_prover]
#[verifier::rlimit(40)]
pub proof fn law_shared_rate_is_found(
    lists: Seq<Seq<RefreshMode>>,
    policy: RefreshSync,
    rate: u32,
)
    requires
        2 <= lists.len() <= MAX_GROUP_MEMBERS,
        forall|i: int| 0 <= i < lists.len() ==> offers_rate(#[trigger] lists[i], rate),
    ensures
        common_refresh(lists, policy) is Some,
        forall|s: Seq<RefreshMode>| #[trigger]
            is_common_refresh(lists, policy, s) ==> {
                &&& slowest(s) >= rate || common_preferred(s) > 0
                &&& slowest(s) == rate ==> forall|i: int|
                    0 <= i < s.len() ==> (#[trigger] s[i]).millihz == rate
            },
{
    let tol = policy.tolerance();
    let w = Seq::new(lists.len(), |i: int| best_at(lists[i], rate));
    assert forall|i: int| 0 <= i < lists.len() implies is_best_mode(
        #[trigger] lists[i],
        rate,
        tol,
        w[i],
    ) && w[i].millihz == rate by {
        lemma_best_at(lists[i], rate, tol);
    }
    lemma_rate_bounds(w);
    let lo = choose|i: int| 0 <= i < w.len() && (#[trigger] w[i]).millihz == slowest(w);
    let hi = choose|i: int| 0 <= i < w.len() && (#[trigger] w[i]).millihz == fastest(w);
    assert(is_best_mode(lists[lo], rate, tol, w[lo]) && w[lo].millihz == rate);
    assert(is_best_mode(lists[hi], rate, tol, w[hi]) && w[hi].millihz == rate);
    assert(advertised(lists, rate)) by {
        assert(offers_rate(lists[0], rate));
        let k = choose|k: int| 0 <= k < lists[0].len() && (#[trigger] lists[0][k]).millihz == rate;
        assert(lists[0][k].millihz == rate);
    }
    assert(is_offer(lists, tol, rate, w));
    law_any_offer_yields_a_common_refresh(lists, policy, rate, w);
    lemma_preferred_count(w);
    assert forall|s: Seq<RefreshMode>| #[trigger] is_common_refresh(lists, policy, s) implies {
        &&& slowest(s) >= rate || common_preferred(s) > 0
        &&& slowest(s) == rate ==> forall|i: int|
            0 <= i < s.len() ==> (#[trigger] s[i]).millihz == rate
    } by {
        let t = choose|t: u32| #[trigger] is_top_offer(lists, tol, t, s);
        assert(ranks_over(s, t, w, rate));
        lemma_rate_bounds(s);
        lemma_preferred_count(s);
    }
}

proof fn lemma_preferred_count(s: Seq<RefreshMode>)
    ensures
        preferred_count(s) >= 0,
    decreases s.len(),
{
    if s.len() > 0 {
        lemma_preferred_count(s.drop_last());
    }
}

/// The mode of a list that runs exactly at a rate, a preferred one where there is one.
spec fn best_at(list: Seq<RefreshMode>, rate: u32) -> RefreshMode {
    if list.contains(RefreshMode { millihz: rate, preferred: true }) {
        RefreshMode { millihz: rate, preferred: true }
    } else {
        RefreshMode { millihz: rate, preferred: false }
    }
}

proof fn lemma_best_at(list: Seq<RefreshMode>, rate: u32, tolerance: u32)
    requires
        offers_rate(list, rate),
    ensures
        is_best_mode(list, rate, tolerance, best_at(list, rate)),
        best_at(list, rate).millihz == rate,
{
    let k = choose|k: int| 0 <= k < list.len() && (#[trigger] list[k]).millihz == rate;
    let m = list[k];
    assert(list.contains(m));
    let b = best_at(list, rate);
    assert(m.preferred ==> m == (RefreshMode { millihz: rate, preferred: true }));
    assert(!m.preferred ==> m == (RefreshMode { millihz: rate, preferred: false }));
    assert(list.contains(b));
    assert forall|j: int|
        0 <= j < list.len() && rate_gap((#[trigger] list[j]).millihz, rate)
            <= tolerance implies serves_better(b, list[j], rate) by {
        let o = list[j];
        assert(list.contains(o));
        if o.millihz == rate && o.preferred {
            assert(o == (RefreshMode { millihz: rate, preferred: true }));
        }
    }
}

/// A group that can form under the strict policy can also form under the relaxed one.
pub proof fn law_strict_groups_also_form_relaxed(lists: Seq<Seq<RefreshMode>>)
    requires
        common_refresh(lists, RefreshSync::Strict) is Some,
    ensures
        common_refresh(lists, RefreshSync::Relaxed) is Some,
{
    let s = choose|s: Seq<RefreshMode>| is_common_refresh(lists, RefreshSync::Strict, s);
    let target = choose|t: u32| #[trigger]
        is_top_offer(lists, RefreshSync::Strict.tolerance(), t, s);
    assert forall|i: int| 0 <= i < lists.len() implies is_best_mode(
        #[trigger] lists[i],
        target,
        RELAXED_REFRESH_TOLERANCE_MILLIHZ,
        s[i],
    ) by {
        assert(is_best_mode(lists[i], target, STRICT_REFRESH_TOLERANCE_MILLIHZ, s[i]));
    }
    assert(is_offer(lists, RefreshSync::Relaxed.tolerance(), target, s));
    law_any_offer_yields_a_common_refresh(lists, RefreshSync::Relaxed, target, s);
}

/// Rates of a strict group lie within five thousandths of a hertz of each other, those of a relaxed
/// one within a tenth.
pub proof fn law_tolerances_are_five_and_a_hundred_millihertz(
    lists: Seq<Seq<RefreshMode>>,
    policy: RefreshSync,
    s: Seq<RefreshMode>,
    i: int,
    j: int,
)
    requires
        is_common_refresh(lists, policy, s),
        0 <= i < s.len(),
        0 <= j < s.len(),
    ensures
        policy is Strict ==> s[i].millihz <= s[j].millihz + 5,
        policy is Relaxed ==> s[i].millihz <= s[j].millihz + 100,
        policy.tolerance() == 5 || policy.tolerance() == 100,
        policy.tolerance() == 5 <==> policy is Strict,
{
    law_common_refresh_is_compatible(lists, policy, s);
    assert(rate_gap(s[i].millihz, s[j].millihz) <= policy.tolerance());
}

proof fn lemma_summaries(selected: Seq<RefreshMode>)
    ensures
        forall|i: int|
            0 <= i < selected.len() ==> slowest(selected) <= (#[trigger] selected[i]).millihz
                <= fastest(selected),
        selected.len() > 0 ==> exists|i: int|
            0 <= i < selected.len() && (#[trigger] selected[i]).millihz == slowest(selected),
        selected.len() > 0 ==> exists|i: int|
            0 <= i < selected.len() && (#[trigger] selected[i]).millihz == fastest(selected),
        0 <= preferred_count(selected) <= selected.len(),
        preferred_count(selected) == selected.len() <==> forall|i: int|
            0 <= i < selected.len() ==> (#[trigger] selected[i]).preferred,
    decreases selected.len(),
{
    if selected.len() > 0 {
        let rest = selected.drop_last();
        let last = selected.len() - 1;
        lemma_summaries(rest);
        assert forall|i: int| 0 <= i < selected.len() implies slowest(selected) <= (
        #[trigger] selected[i]).millihz <= fastest(selected) by {
            if i < last {
                assert(rest[i] == selected[i]);
            }
        }
        if slowest(selected) != selected[last].millihz {
            if rest.len() > 0 {
                let i = choose|i: int|
                    0 <= i < rest.len() && (#[trigger] rest[i]).millihz == slowest(rest);
                assert(selected[i] == rest[i]);
            }
        }
        if fastest(selected) != selected[last].millihz {
            if rest.len() > 0 {
                let i = choose|i: int|
                    0 <= i < rest.len() && (#[trigger] rest[i]).millihz == fastest(rest);
                assert(selected[i] == rest[i]);
            }
        }
        if forall|i: int| 0 <= i < selected.len() ==> (#[trigger] selected[i]).preferred {
            assert forall|i: int| 0 <= i < rest.len() implies (#[trigger] rest[i]).preferred by {
                assert(rest[i] == selected[i]);
            }
            assert(selected[last].preferred);
        }
        if preferred_count(selected) == selected.len() {
            assert forall|i: int| 0 <= i < selected.len() implies (
            #[trigger] selected[i]).preferred by {
                if i < last {
                    assert(rest[i] == selected[i]);
                }
            }
        }
    }
}

/// The slowest and the fastest of some rates are among them and bound them all; all of them are
/// preferred exactly when as many are counted as there are.
pub proof fn law_summaries_are_extremes(selected: Seq<RefreshMode>, i: int)
    requires
        0 <= i < selected.len(),
    ensures
        slowest(selected) <= selected[i].millihz <= fastest(selected),
        exists|k: int|
            0 <= k < selected.len() && (#[trigger] selected[k]).millihz == slowest(selected),
        exists|k: int|
            0 <= k < selected.len() && (#[trigger] selected[k]).millihz == fastest(selected),
        preferred_count(selected) == selected.len() <==> forall|k: int|
            0 <= k < selected.len() ==> (#[trigger] selected[k]).preferred,
        spread(selected) == fastest(selected) - slowest(selected),
{
    lemma_summaries(selected);
}

/// Where every member prefers one and the same rate, the group runs at a rate that every member
/// prefers.
pub proof fn law_a_rate_that_all_prefer_wins(
    lists: Seq<Seq<RefreshMode>>,
    policy: RefreshSync,
    rate: u32,
    s: Seq<RefreshMode>,
    i: int,
)
    requires
        2 <= lists.len() <= 4,
        forall|k: int|
            0 <= k < lists.len() ==> (#[trigger] lists[k]).contains(
                (RefreshMode { millihz: rate, preferred: true }),
            ),
        common_refresh(lists, policy) == Some(s),
        0 <= i < s.len(),
    ensures
        s[i].preferred,
        s[i].millihz == s[0].millihz,
{
    let n = lists.len();
    let best = RefreshMode { millihz: rate, preferred: true };
    let all = Seq::new(n, |k: int| best);
    let tolerance = policy.tolerance();
    assert forall|k: int| 0 <= k < n implies is_best_mode(
        #[trigger] lists[k],
        rate,
        tolerance,
        all[k],
    ) by {
        assert(lists[k].contains(best));
    }
    lemma_summaries(all);
    assert(preferred_count(all) == n) by {
        assert forall|k: int| 0 <= k < all.len() implies (#[trigger] all[k]).preferred by {}
    }
    assert(slowest(all) == rate) by {
        let k = choose|k: int| 0 <= k < all.len() && (#[trigger] all[k]).millihz == slowest(all);
    }
    assert(fastest(all) == rate) by {
        let k = choose|k: int| 0 <= k < all.len() && (#[trigger] all[k]).millihz == fastest(all);
    }
    assert(lists[0].contains(best));
    let at = choose|at: int| 0 <= at < lists[0].len() && lists[0][at] == best;
    assert(lists[0][at].millihz == rate);
    assert(advertised(lists, rate));
    assert(is_offer(lists, tolerance, rate, all));
    law_any_offer_yields_a_common_refresh(lists, policy, rate, all);
    let t = choose|t: u32| #[trigger] is_top_offer(lists, tolerance, t, s);
    assert(ranks_over(s, t, all, rate));
    lemma_summaries(s);
    assert(common_preferred(s) >= n);
    assert(s.len() == n);
    assert(preferred_count(s) == s.len());
    assert(spread(s) == 0);
    assert(s[0].millihz == s[i].millihz);
}

/// Where no member has a preferred rate, the group runs at least as fast as any rate that every
/// member offers.
pub proof fn law_the_fastest_shared_rate_wins_without_preferences(
    lists: Seq<Seq<RefreshMode>>,
    policy: RefreshSync,
    rate: u32,
    s: Seq<RefreshMode>,
    i: int,
)
    requires
        2 <= lists.len() <= 4,
        forall|k: int| 0 <= k < lists.len() ==> offers_rate(#[trigger] lists[k], rate),
        forall|k: int, l: int|
            0 <= k < lists.len() && 0 <= l < lists[k].len() ==> !(#[trigger] lists[k][l]).preferred,
        common_refresh(lists, policy) == Some(s),
        0 <= i < s.len(),
    ensures
        s[i].millihz >= rate,
{
    law_shared_rate_is_found(lists, policy, rate);
    assert(is_common_refresh(lists, policy, s));
    law_common_refresh_is_compatible(lists, policy, s);
    lemma_summaries(s);
    assert forall|k: int| 0 <= k < s.len() implies !(#[trigger] s[k]).preferred by {
        assert(lists[k].contains(s[k]));
        let l = choose|l: int| 0 <= l < lists[k].len() && lists[k][l] == s[k];
        assert(!lists[k][l].preferred);
    }
    lemma_none_preferred(s);
}

proof fn lemma_none_preferred(selected: Seq<RefreshMode>)
    requires
        forall|k: int| 0 <= k < selected.len() ==> !(#[trigger] selected[k]).preferred,
    ensures
        preferred_count(selected) == 0,
    decreases selected.len(),
{
    if selected.len() > 0 {
        assert(!selected[selected.len() - 1].preferred);
        assert forall|k: int| 0 <= k < selected.drop_last().len() implies !(
        #[trigger] selected.drop_last()[k]).preferred by {
            assert(selected.drop_last()[k] == selected[k]);
        }
        lemma_none_preferred(selected.drop_last());
    }
}

/// Of all sets of rates that members could run at together, the chosen one has the most preferred
/// rates where all run at one rate; among those it has the fastest slowest member, among those the
/// least spread, and among those it lies around the highest rate.
pub proof fn law_common_refresh_outranks_every_other_offer(
    lists: Seq<Seq<RefreshMode>>,
    policy: RefreshSync,
    s: Seq<RefreshMode>,
    rate: u32,
    other: Seq<RefreshMode>,
)
    requires
        common_refresh(lists, policy) == Some(s),
        is_offer(lists, policy.tolerance(), rate, other),
    ensures
        ({
            let mine = if spread(s) == 0 {
                preferred_count(s)
            } else {
                0
            };
            let theirs = if spread(other) == 0 {
                preferred_count(other)
            } else {
                0
            };
            &&& mine >= theirs
            &&& mine == theirs ==> slowest(s) >= slowest(other)
            &&& mine == theirs && slowest(s) == slowest(other) ==> spread(s) <= spread(other)
        }),
{
    assert(is_common_refresh(lists, policy, s));
    let t = choose|t: u32| #[trigger] is_top_offer(lists, policy.tolerance(), t, s);
    assert(ranks_over(s, t, other, rate));
}

/// Around a rate, a member runs at the closest of its rates that is within the tolerance; of two
/// that are equally close the preferred one, and of two equally preferred ones the higher.
pub proof fn law_members_run_closest_to_the_common_rate(
    list: Seq<RefreshMode>,
    target: u32,
    tolerance: u32,
    best: RefreshMode,
    k: int,
)
    requires
        is_best_mode(list, target, tolerance, best),
        0 <= k < list.len(),
    ensures
        list.contains(best),
        target - tolerance <= best.millihz <= target + tolerance,
        ({
            let of_best = if best.millihz >= target {
                best.millihz - target
            } else {
                target - best.millihz
            };
            let of_other = if list[k].millihz >= target {
                list[k].millihz - target
            } else {
                target - list[k].millihz
            };
            &&& of_best <= of_other
            &&& of_best == of_other && list[k].preferred ==> best.preferred
            &&& of_best == of_other && list[k].preferred == best.preferred ==> list[k].millihz
                <= best.millihz
        }),
{
    if rate_gap(list[k].millihz, target) <= tolerance {
        assert(serves_better(best, list[k], target));
    }
}

/// Members that each offer a single rate run together exactly when no two of the rates are farther
/// apart than the tolerance, and then each runs at its own.
pub proof fn law_single_rates_within_the_tolerance_are_compatible(
    lists: Seq<Seq<RefreshMode>>,
    policy: RefreshSync,
    own: Seq<RefreshMode>,
)
    requires
        2 <= lists.len() <= 4,
        own.len() == lists.len(),
        forall|i: int| 0 <= i < lists.len() ==> #[trigger] lists[i] == seq![own[i]],
    ensures
        (forall|i: int, j: int|
            0 <= i < own.len() && 0 <= j < own.len() ==> (#[trigger] own[i]).millihz <= (
            #[trigger] own[j]).millihz + (if policy is Strict {
                5int
            } else {
                100int
            })) <==> common_refresh(lists, policy) is Some,
        common_refresh(lists, policy) matches Some(s) ==> s == own,
{
    let tolerance = policy.tolerance();
    let target = own[0].millihz;
    if forall|i: int, j: int|
        0 <= i < own.len() && 0 <= j < own.len() ==> (#[trigger] own[i]).millihz <= (
        #[trigger] own[j]).millihz + (if policy is Strict {
            5int
        } else {
            100int
        }) {
        assert forall|i: int| 0 <= i < lists.len() implies is_best_mode(
            #[trigger] lists[i],
            target,
            tolerance,
            own[i],
        ) by {
            assert(lists[i][0] == own[i]);
            assert(own[i].millihz <= own[0].millihz + tolerance);
            assert(own[0].millihz <= own[i].millihz + tolerance);
        }
        assert(lists[0][0].millihz == target);
        assert(advertised(lists, target));
        lemma_summaries(own);
        let a = choose|a: int| 0 <= a < own.len() && (#[trigger] own[a]).millihz == slowest(own);
        let b = choose|b: int| 0 <= b < own.len() && (#[trigger] own[b]).millihz == fastest(own);
        assert(own[b].millihz <= own[a].millihz + tolerance);
        assert(is_offer(lists, tolerance, target, own));
        law_any_offer_yields_a_common_refresh(lists, policy, target, own);
    }
    if let Some(s) = common_refresh(lists, policy) {
        assert(is_common_refresh(lists, policy, s));
        law_common_refresh_is_compatible(lists, policy, s);
        assert forall|i: int| 0 <= i < s.len() implies s[i] == own[i] by {
            assert(lists[i].contains(s[i]));
            assert(lists[i] == seq![own[i]]);
        }
        assert(s =~= own);
        assert forall|i: int, j: int| 0 <= i < own.len() && 0 <= j < own.len() implies (
        #[trigger] own[i]).millihz <= (#[trigger] own[j]).millihz + (if policy is Strict {
            5int
        } else {
            100int
        }) by {
            law_tolerances_are_five_and_a_hundred_millihertz(lists, policy, s, i, j);
        }
    }
}

} // verus!
