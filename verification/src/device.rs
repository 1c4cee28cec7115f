//! Everything that tiled output keeps per device.

use std::collections::hash_map::Entry;
use std::collections::HashMap;

use vstd::hash_map::StringHashMap;
use vstd::prelude::*;

use crate::crtc;
use crate::failure::FailureView;
use crate::failure::TiledFailure;
use crate::failure::TiledFailureTracker;
use crate::group::OutputId;
use crate::group::TiledGroup;

verus! {

/// The profiler crate's name of a frame series.
#[verifier::external_type_specification]
#[verifier::external_body]
pub struct ExFrameName(tracy_client::FrameName);

/// The profiler crate's name of a plot.
#[verifier::external_type_specification]
#[verifier::external_body]
pub struct ExPlotName(tracy_client::PlotName);

/// The frame name that stands for a text.
pub uninterp spec fn frame_name(text: Seq<char>) -> tracy_client::FrameName;

/// The plot name that stands for a text.
pub uninterp spec fn plot_name(text: Seq<char>) -> tracy_client::PlotName;

/// Trusted: `FrameName::new_leak` makes a name that depends on the text alone.
#[verifier::external_body]
fn leak_frame_name(text: String) -> (name: tracy_client::FrameName)
    ensures
        name == frame_name(text@),
{
    tracy_client::FrameName::new_leak(text)
}

/// Trusted: `PlotName::new_leak` makes a name that depends on the text alone.
#[verifier::external_body]
fn leak_plot_name(text: String) -> (name: tracy_client::PlotName)
    ensures
        name == plot_name(text@),
{
    tracy_client::PlotName::new_leak(text)
}

/// The names under which a group's timing is profiled.
#[derive(Clone, Copy)]
pub struct TiledTraceNames {
    pub vblank_frame: tracy_client::FrameName,
    pub time_since_presentation: tracy_client::PlotName,
    pub presentation_misprediction: tracy_client::PlotName,
    pub sequence_delta: tracy_client::PlotName,
}

/// The names for the group with the given key.
pub open spec fn trace_names_for(key: Seq<char>) -> TiledTraceNames {
    TiledTraceNames {
        vblank_frame: frame_name("vblank on "@ + key),
        time_since_presentation: plot_name(key + " time since presentation, ms"@),
        presentation_misprediction: plot_name(key + " presentation misprediction, ms"@),
        sequence_delta: plot_name(key + " sequence delta"@),
    }
}

fn make_trace_names(key: &str) -> (names: TiledTraceNames)
    ensures
        names == trace_names_for(key@),
{
    let mut vblank = "vblank on ".to_owned();
    vblank.append(key);
    let mut since = key.to_owned();
    since.append(" time since presentation, ms");
    let mut misprediction = key.to_owned();
    misprediction.append(" presentation misprediction, ms");
    let mut delta = key.to_owned();
    delta.append(" sequence delta");
    TiledTraceNames {
        vblank_frame: leak_frame_name(vblank),
        time_since_presentation: leak_plot_name(since),
        presentation_misprediction: leak_plot_name(misprediction),
        sequence_delta: leak_plot_name(delta),
    }
}

/// Per-device state owned by the tiled-output engine.
///
/// Keeping these indexes together makes the backend an integration host rather than the
/// owner of tiled-output policy and lifecycle bookkeeping. The host retains its device,
/// renderers, and ordinary single-CRTC surfaces; this state owns only the dual-CRTC extension.
pub struct TiledDeviceState<S, D, P> {
    /// Live groups keyed by their primary (leftmost) CRTC.
    groups: HashMap<u32, TiledGroup<S, D, P>>,
    /// Maps either member CRTC to the group's primary CRTC.
    by_crtc: HashMap<u32, u32>,
    /// Stable output identities across a disconnect/reconnect.
    group_ids: StringHashMap<OutputId>,
    /// Stable profiler names. Dynamic names are process-lifetime allocations, so they are cached
    /// independently of group attempts and reused across reconnects and validation failures.
    trace_names: StringHashMap<TiledTraceNames>,
    /// Formation failures and their bounded retry policy.
    failures: TiledFailureTracker,
    /// Failed all-head disables, retried independently from formation.
    disable_failures: TiledFailureTracker,
    /// Groups whose all-head disable could not be confirmed and whose KMS resources must remain
    /// retained until a later retry or device removal.
    quarantined_groups: HashMap<u32, TiledGroup<S, D, P>>,
    /// Increments whenever the host successfully rescans connector topology.
    generation: u64,
}

/// The live groups and the reverse mapping.
pub struct LiveView<S, D, P> {
    pub groups: Map<u32, TiledGroup<S, D, P>>,
    pub by_crtc: Map<u32, u32>,
}

impl<S, D, P> LiveView<S, D, P> {
    /// Every CRTC of the mapping belongs to a live group, and every live group is mapped from its
    /// members.
    pub open spec fn consistent(self) -> bool {
        &&& forall|c: u32| #[trigger]
            self.by_crtc.contains_key(c) ==> self.groups.contains_key(self.by_crtc[c]) && (
            self.groups[self.by_crtc[c]].left().crtc == c
                || self.groups[self.by_crtc[c]].right().crtc == c)
        &&& forall|p: u32| #[trigger]
            self.groups.contains_key(p) ==> {
                &&& self.groups[p].left().crtc == p
                &&& self.by_crtc.contains_key(self.groups[p].left().crtc)
                &&& self.by_crtc[self.groups[p].left().crtc] == p
                &&& self.by_crtc.contains_key(self.groups[p].right().crtc)
                &&& self.by_crtc[self.groups[p].right().crtc] == p
            }
    }

    /// Whether a group may be published: none of its members is in use.
    pub open spec fn admits(self, group: TiledGroup<S, D, P>) -> bool {
        &&& !self.by_crtc.contains_key(group.left().crtc)
        &&& !self.by_crtc.contains_key(group.right().crtc)
        &&& !self.groups.contains_key(group.left().crtc)
    }

    /// The state with one more live group.
    pub open spec fn with_group(self, group: TiledGroup<S, D, P>) -> LiveView<S, D, P> {
        let primary = group.left().crtc;
        LiveView {
            groups: self.groups.insert(primary, group),
            by_crtc: self.by_crtc.insert(primary, primary).insert(group.right().crtc, primary),
        }
    }

    /// The state without the group that a CRTC belongs to, and without any trace of it in the
    /// mapping.
    pub open spec fn without_group_of(self, crtc: u32) -> LiveView<S, D, P> {
        if self.by_crtc.contains_key(crtc) {
            let primary = self.by_crtc[crtc];
            LiveView {
                groups: self.groups.remove(primary),
                by_crtc: Map::new(
                    |c: u32| self.by_crtc.contains_key(c) && self.by_crtc[c] != primary,
                    |c: u32| self.by_crtc[c],
                ),
            }
        } else {
            self
        }
    }

    /// The group that a CRTC belongs to, with its primary CRTC.
    pub open spec fn group_of(self, crtc: u32) -> Option<(u32, TiledGroup<S, D, P>)> {
        if self.by_crtc.contains_key(crtc) && self.groups.contains_key(self.by_crtc[crtc]) {
            Some((self.by_crtc[crtc], self.groups[self.by_crtc[crtc]]))
        } else {
            None
        }
    }
}

/// The contents of the state.
pub struct DeviceView<S, D, P> {
    pub live: LiveView<S, D, P>,
    /// By group key.
    pub group_ids: Map<Seq<char>, OutputId>,
    /// By group key.
    pub trace_names: Map<Seq<char>, TiledTraceNames>,
    pub failures: FailureView,
    pub disable_failures: FailureView,
    /// By primary CRTC.
    pub quarantined: Map<u32, TiledGroup<S, D, P>>,
    pub generation: u64,
}

impl<S, D, P> View for TiledDeviceState<S, D, P> {
    type V = DeviceView<S, D, P>;

    closed spec fn view(&self) -> DeviceView<S, D, P> {
        DeviceView {
            live: LiveView { groups: self.groups@, by_crtc: self.by_crtc@ },
            group_ids: self.group_ids@,
            trace_names: self.trace_names@,
            failures: self.failures@,
            disable_failures: self.disable_failures@,
            quarantined: self.quarantined_groups@,
            generation: self.generation,
        }
    }
}

impl<S, D, P> DeviceView<S, D, P> {
    /// A state with nothing in it but the given mapping.
    pub open spec fn mapping_only(by_crtc: Map<u32, u32>) -> DeviceView<S, D, P> {
        let no_failures = FailureView { entries: Map::empty(), generation: 0 };
        DeviceView {
            live: LiveView { groups: Map::empty(), by_crtc },
            group_ids: Map::empty(),
            trace_names: Map::empty(),
            failures: no_failures,
            disable_failures: no_failures,
            quarantined: Map::empty(),
            generation: 0,
        }
    }
}

impl<S, D, P> Default for TiledDeviceState<S, D, P> {
    fn default() -> (state: Self)
        ensures
            state@ == DeviceView::<S, D, P>::mapping_only(Map::empty()),
    {
        TiledDeviceState::from_mapping(HashMap::new())
    }
}

impl<S, D, P> TiledDeviceState<S, D, P> {
    /// The live groups and the reverse mapping.
    pub open spec fn live(self) -> LiveView<S, D, P> {
        self@.live
    }

    /// A state that starts out with a mapping from CRTCs to primary CRTCs. Entries without a group
    /// are dropped as soon as one of their CRTCs is taken.
    pub fn from_mapping(by_crtc: HashMap<u32, u32>) -> (state: Self)
        ensures
            state@ == DeviceView::<S, D, P>::mapping_only(by_crtc@),
    {
        let state = TiledDeviceState {
            groups: HashMap::new(),
            by_crtc,
            group_ids: StringHashMap::new(),
            trace_names: StringHashMap::new(),
            failures: Default::default(),
            disable_failures: Default::default(),
            quarantined_groups: HashMap::new(),
            generation: 0,
        };
        proof {
            let empty = DeviceView::<S, D, P>::mapping_only(by_crtc@);
            assert(state@.live.groups =~= empty.live.groups);
            assert(state@.group_ids =~= empty.group_ids);
            assert(state@.trace_names =~= empty.trace_names);
            assert(state@.failures.entries =~= empty.failures.entries);
            assert(state@.disable_failures.entries =~= empty.disable_failures.entries);
            assert(state@.quarantined =~= empty.quarantined);
        }
        state
    }

    pub fn generation(&self) -> (generation: u64)
        ensures
            generation == self@.generation,
    {
        self.generation
    }

    pub fn advance_generation(&mut self)
        ensures
            final(self)@ == (DeviceView {
                generation: crtc::following(old(self)@.generation),
                ..old(self)@
            }),
    {
        self.generation = if self.generation == u64::MAX {
            1
        } else {
            self.generation + 1
        };
    }

    pub fn live_groups(&self) -> (groups: &HashMap<u32, TiledGroup<S, D, P>>)
        ensures
            groups@ == self.live().groups,
    {
        &self.groups
    }

    pub fn live_group(&self, primary: u32) -> (group: Option<&TiledGroup<S, D, P>>)
        ensures
            match group {
                Some(g) => self.live().groups.contains_key(primary) && *g
                    == self.live().groups[primary],
                None => !self.live().groups.contains_key(primary),
            },
    {
        self.groups.get(&primary)
    }

    pub fn live_group_mut(&mut self, primary: u32) -> (group: Option<&mut TiledGroup<S, D, P>>)
        ensures
            match group {
                Some(g) => {
                    &&& old(self).live().groups.contains_key(primary)
                    &&& *g == old(self).live().groups[primary]
                    &&& final(self).live().groups == old(self).live().groups.insert(
                        primary,
                        *final(g),
                    )
                },
                None => !old(self).live().groups.contains_key(primary)
                    && final(self).live().groups == old(self).live().groups,
            },
            final(self).live().by_crtc == old(self).live().by_crtc,
            final(self)@ == (DeviceView { live: final(self)@.live, ..old(self)@ }),
    {
        match self.groups.entry(primary) {
            Entry::Occupied(entry) => Some(entry.into_mut()),
            Entry::Vacant(_) => None,
        }
    }

    pub fn contains_primary(&self, primary: u32) -> (yes: bool)
        ensures
            yes == self.live().groups.contains_key(primary),
    {
        self.groups.contains_key(&primary)
    }

    pub fn primary_for_member(&self, crtc: u32) -> (primary: Option<u32>)
        ensures
            primary == (if self.live().by_crtc.contains_key(crtc) {
                Some(self.live().by_crtc[crtc])
            } else {
                None
            }),
    {
        match self.by_crtc.get(&crtc) {
            Some(primary) => Some(*primary),
            None => None,
        }
    }

    pub fn owns_crtc(&self, crtc: u32) -> (yes: bool)
        ensures
            yes == self.live().by_crtc.contains_key(crtc),
    {
        self.by_crtc.contains_key(&crtc)
    }
}

/// The keys of a map, each once.
fn collect_keys<V>(map: &HashMap<u32, V>) -> (keys: Vec<u32>)
    ensures
        keys@.no_duplicates(),
        keys@.to_set() == map@.dom(),
{
    let mut keys: Vec<u32> = Vec::new();
    for key in it: map.keys()
        invariant
            it.seq().unref().to_set() == map@.dom(),
            it.seq().no_duplicates(),
            keys@ == it.seq().unref().take(it.index() as int),
            it.index() == it.seq().len() ==> keys@ == it.seq().unref(),
            keys@.no_duplicates(),
    {
        let ghost before = keys@;
        keys.push(*key);
        proof {
            let all = it.seq().unref();
            let index = it.index() as int;
            assert(all[index] == *key);
            assert(keys@ =~= all.take(index + 1));
            assert(all.take(all.len() as int) =~= all);
            assert forall|i: int, j: int| 0 <= i < j < keys@.len() implies keys@[i] != keys@[j] by {
                assert(*it.seq()[i] == keys@[i]);
                assert(*it.seq()[j] == keys@[j]);
                assert(it.seq()[i] != it.seq()[j]);
            }
        }
    }
    keys
}

impl<S, D, P> TiledDeviceState<S, D, P> {
    /// Lets `visit` change every live group, in no particular order. The groups stay under their
    /// primary CRTCs.
    pub fn live_groups_mut<V: FnMut(u32, TiledGroup<S, D, P>) -> TiledGroup<S, D, P>>(
        &mut self,
        mut visit: V,
    )
        requires
            forall|p: u32| #[trigger]
                old(self).live().groups.contains_key(p) ==> call_requires(
                    visit,
                    (p, old(self).live().groups[p]),
                ),
        ensures
            forall|p: u32| #[trigger]
                final(self).live().groups.contains_key(p) <==> old(self).live().groups.contains_key(
                    p,
                ),
            forall|p: u32| #[trigger]
                old(self).live().groups.contains_key(p) ==> call_ensures(
                    visit,
                    (p, old(self).live().groups[p]),
                    final(self).live().groups[p],
                ),
            final(self).live().by_crtc == old(self).live().by_crtc,
            final(self)@ == (DeviceView { live: final(self)@.live, ..old(self)@ }),
    {
        let keys = collect_keys(&self.groups);
        let ghost start = self.groups@;
        let ghost before = *self;
        let ghost first_visit = visit;
        assert(start == old(self).live().groups);
        assert forall|p: u32| #[trigger] start.contains_key(p) <==> keys@.contains(p) by {
            assert(keys@.to_set().contains(p) <==> start.dom().contains(p));
        }
        for i in 0..keys.len()
            invariant
                start == before.groups@,
                visit == first_visit,
                keys@.no_duplicates(),
                forall|p: u32| #[trigger] start.contains_key(p) <==> keys@.contains(p),
                forall|p: u32| #[trigger]
                    start.contains_key(p) ==> call_requires(visit, (p, start[p])),
                *self == (TiledDeviceState { groups: self.groups, ..before }),
                forall|p: u32| #[trigger] self.groups@.contains_key(p) <==> start.contains_key(p),
                forall|k: int|
                    0 <= k < i ==> call_ensures(
                        visit,
                        (#[trigger] keys@[k], start[keys@[k]]),
                        self.groups@[keys@[k]],
                    ),
                forall|k: int|
                    i <= k < keys@.len() ==> self.groups@[#[trigger] keys@[k]] == start[keys@[k]],
        {
            let primary: u32 = keys[i];
            assert(keys@.contains(keys@[i as int]));
            assert(start.contains_key(primary));
            if let Some(group) = self.groups.remove(&primary) {
                let changed = visit(primary, group);
                self.groups.insert(primary, changed);
            }
        }
        proof {
            assert forall|p: u32| #[trigger] start.contains_key(p) implies call_ensures(
                first_visit,
                (p, start[p]),
                self.groups@[p],
            ) by {
                assert(keys@.contains(p));
                let k = choose|k: int| 0 <= k < keys@.len() && keys@[k] == p;
                assert(keys@[k] == p);
            }
        }
    }

    pub fn live_group_and_formation_failures_mut(&mut self, primary: u32) -> (found: Option<
        (&mut TiledGroup<S, D, P>, &mut TiledFailureTracker),
    >)
        ensures
            match found {
                Some(f) => {
                    &&& old(self).live().groups.contains_key(primary)
                    &&& *f.0 == old(self).live().groups[primary]
                    &&& f.1@ == old(self)@.failures
                    &&& final(self).live().groups == old(self).live().groups.insert(
                        primary,
                        *final(f.0),
                    )
                    &&& final(self)@.failures == final(f.1)@
                },
                None => !old(self).live().groups.contains_key(primary) && final(self)@.failures
                    == old(self)@.failures && final(self).live().groups
                    == old(self).live().groups,
            },
            final(self).live().by_crtc == old(self).live().by_crtc,
            final(self)@ == (DeviceView {
                live: final(self)@.live,
                failures: final(self)@.failures,
                ..old(self)@
            }),
    {
        match self.groups.entry(primary) {
            Entry::Occupied(entry) => Some((entry.into_mut(), &mut self.failures)),
            Entry::Vacant(_) => None,
        }
    }

    /// The CRTCs of live groups, each once, in no particular order.
    pub fn occupied_crtcs(&self) -> (crtcs: Vec<u32>)
        ensures
            crtcs@.no_duplicates(),
            crtcs@.to_set() == self.live().by_crtc.dom(),
    {
        collect_keys(&self.by_crtc)
    }

    /// The primary CRTCs of live groups, each once, in no particular order.
    pub fn live_primaries(&self) -> (primaries: Vec<u32>)
        ensures
            primaries@.no_duplicates(),
            primaries@.to_set() == self.live().groups.dom(),
    {
        collect_keys(&self.groups)
    }

    /// Publishes a group and both reverse mappings as one invariant-preserving operation.
    pub fn insert_live_group(&mut self, group: TiledGroup<S, D, P>)
        requires
            old(self).live().admits(group),
        ensures
            final(self).live() == old(self).live().with_group(group),
            final(self)@ == (DeviceView { live: final(self)@.live, ..old(self)@ }),
    {
        let primary: u32 = group.primary_crtc();
        let members = group.member_crtcs();
        self.by_crtc.insert(members[0], primary);
        self.by_crtc.insert(members[1], primary);
        self.groups.insert(primary, group);
    }

    /// Removes the group containing `crtc`, pruning all reverse mappings even if the primary
    /// map is already inconsistent.
    pub fn take_live_group_by_member(&mut self, crtc: u32) -> (taken: Option<
        (u32, TiledGroup<S, D, P>),
    >)
        ensures
            taken == old(self).live().group_of(crtc),
            final(self).live() == old(self).live().without_group_of(crtc),
            final(self)@ == (DeviceView { live: final(self)@.live, ..old(self)@ }),
    {
        let ghost start = self.live();
        let primary: u32 = match self.by_crtc.get(&crtc) {
            Some(primary) => *primary,
            None => {
                return None;
            },
        };
        let keys = collect_keys(&self.by_crtc);
        let ghost before = *self;
        assert forall|c: u32| #[trigger] start.by_crtc.contains_key(c) <==> keys@.contains(c) by {
            assert(keys@.to_set().contains(c) <==> start.by_crtc.dom().contains(c));
        }
        for i in 0..keys.len()
            invariant
                start == before.live(),
                forall|c: u32| #[trigger] start.by_crtc.contains_key(c) <==> keys@.contains(c),
                *self == (TiledDeviceState { by_crtc: self.by_crtc, ..before }),
                forall|c: u32| #[trigger]
                    self.by_crtc@.contains_key(c) <==> start.by_crtc.contains_key(c) && (
                    start.by_crtc[c] != primary || !keys@.take(i as int).contains(c)),
                forall|c: u32| #[trigger]
                    self.by_crtc@.contains_key(c) ==> self.by_crtc@[c] == start.by_crtc[c],
        {
            let key: u32 = keys[i];
            let ghost map = self.by_crtc@;
            assert(keys@.contains(key));
            let drop = match self.by_crtc.get(&key) {
                Some(mapped) => *mapped == primary,
                None => false,
            };
            if drop {
                self.by_crtc.remove(&key);
            }
            proof {
                let prev = keys@.take(i as int);
                let next = keys@.take(i + 1);
                assert forall|c: u32| next.contains(c) <==> #[trigger] prev.contains(c) || c
                    == key by {
                    if prev.contains(c) {
                        let k = choose|k: int| 0 <= k < prev.len() && prev[k] == c;
                        assert(next[k] == c);
                    }
                    if next.contains(c) {
                        let k = choose|k: int| 0 <= k < next.len() && next[k] == c;
                        if k < i {
                            assert(prev[k] == c);
                        }
                    }
                    assert(next[i as int] == key);
                }
                assert forall|c: u32| #[trigger]
                    self.by_crtc@.contains_key(c) <==> start.by_crtc.contains_key(c) && (
                    start.by_crtc[c] != primary || !next.contains(c)) by {
                    assert(map.contains_key(c) <==> start.by_crtc.contains_key(c) && (
                    start.by_crtc[c] != primary || !prev.contains(c)));
                    assert(prev.contains(c) || !prev.contains(c));
                }
            }
        }
        let group = self.groups.remove(&primary);
        proof {
            assert(keys@.take(keys@.len() as int) =~= keys@);
            assert(self.by_crtc@ =~= start.without_group_of(crtc).by_crtc);
            assert(self.groups@ =~= start.without_group_of(crtc).groups);
        }
        match group {
            Some(group) => Some((primary, group)),
            None => None,
        }
    }

    /// The identity and the profiler names of the group with the given key: the same ones whenever
    /// it is asked for. The counter is that of the last identity made.
    pub fn output_identity(&mut self, key: &str, counter: &mut u64) -> (identity: (
        OutputId,
        TiledTraceNames,
    ))
        requires
            !old(self)@.group_ids.contains_key(key@) ==> *old(counter) < u64::MAX,
        ensures
            final(self)@.group_ids.contains_key(key@),
            final(self)@.group_ids[key@] == identity.0,
            final(self)@.trace_names.contains_key(key@),
            final(self)@.trace_names[key@] == identity.1,
            old(self)@.group_ids.contains_key(key@) ==> {
                &&& identity.0 == old(self)@.group_ids[key@]
                &&& final(self)@.group_ids == old(self)@.group_ids
                &&& *final(counter) == *old(counter)
            },
            !old(self)@.group_ids.contains_key(key@) ==> {
                &&& identity.0.number() == *old(counter) + 1
                &&& final(self)@.group_ids == old(self)@.group_ids.insert(key@, identity.0)
                &&& *final(counter) == *old(counter) + 1
            },
            old(self)@.trace_names.contains_key(key@) ==> {
                &&& identity.1 == old(self)@.trace_names[key@]
                &&& final(self)@.trace_names == old(self)@.trace_names
            },
            !old(self)@.trace_names.contains_key(key@) ==> {
                &&& identity.1 == trace_names_for(key@)
                &&& final(self)@.trace_names == old(self)@.trace_names.insert(key@, identity.1)
            },
            final(self)@ == (DeviceView {
                group_ids: final(self)@.group_ids,
                trace_names: final(self)@.trace_names,
                ..old(self)@
            }),
    {
        let known_id: Option<OutputId> = match self.group_ids.get(key) {
            Some(id) => Some(*id),
            None => None,
        };
        let id = match known_id {
            Some(id) => id,
            None => {
                let id = OutputId::next(counter);
                self.group_ids.insert(key.to_owned(), id);
                id
            },
        };
        let known_names: Option<TiledTraceNames> = match self.trace_names.get(key) {
            Some(names) => Some(*names),
            None => None,
        };
        let names = match known_names {
            Some(names) => names,
            None => {
                let names = make_trace_names(key);
                self.trace_names.insert(key.to_owned(), names);
                names
            },
        };
        (id, names)
    }

    pub fn formation_failures(&self) -> (failures: &TiledFailureTracker)
        ensures
            failures@ == self@.failures,
    {
        &self.failures
    }

    pub fn formation_failures_mut(&mut self) -> (failures: &mut TiledFailureTracker)
        ensures
            failures@ == old(self)@.failures,
            final(self)@ == (DeviceView { failures: final(failures)@, ..old(self)@ }),
    {
        &mut self.failures
    }

    pub fn disable_failures(&self) -> (failures: &TiledFailureTracker)
        ensures
            failures@ == self@.disable_failures,
    {
        &self.disable_failures
    }

    pub fn disable_failures_mut(&mut self) -> (failures: &mut TiledFailureTracker)
        ensures
            failures@ == old(self)@.disable_failures,
            final(self)@ == (DeviceView { disable_failures: final(failures)@, ..old(self)@ }),
    {
        &mut self.disable_failures
    }

    pub fn clear_failures(&mut self)
        ensures
            final(self)@.failures.entries == Map::<Seq<char>, TiledFailure>::empty(),
            final(self)@.failures.generation == old(self)@.failures.generation,
            final(self)@.disable_failures.entries == Map::<Seq<char>, TiledFailure>::empty(),
            final(self)@.disable_failures.generation == old(self)@.disable_failures.generation,
            final(self)@ == (DeviceView {
                failures: final(self)@.failures,
                disable_failures: final(self)@.disable_failures,
                ..old(self)@
            }),
    {
        self.failures.clear();
        self.disable_failures.clear();
    }

    pub fn quarantined_groups(&self) -> (groups: &HashMap<u32, TiledGroup<S, D, P>>)
        ensures
            groups@ == self@.quarantined,
    {
        &self.quarantined_groups
    }

    pub fn take_quarantined_group(&mut self, primary: u32) -> (taken: Option<TiledGroup<S, D, P>>)
        ensures
            taken == (if old(self)@.quarantined.contains_key(primary) {
                Some(old(self)@.quarantined[primary])
            } else {
                None
            }),
            final(self)@.quarantined == old(self)@.quarantined.remove(primary),
            final(self)@ == (DeviceView {
                quarantined: final(self)@.quarantined,
                ..old(self)@
            }),
    {
        let taken = self.quarantined_groups.remove(&primary);
        assert(self.quarantined_groups@ =~= old(self).quarantined_groups@.remove(primary));
        taken
    }

    pub fn quarantine_group(&mut self, primary: u32, group: TiledGroup<S, D, P>)
        requires
            !old(self)@.quarantined.contains_key(primary),
        ensures
            final(self)@.quarantined == old(self)@.quarantined.insert(primary, group),
            final(self)@ == (DeviceView {
                quarantined: final(self)@.quarantined,
                ..old(self)@
            }),
    {
        self.quarantined_groups.insert(primary, group);
    }

    pub fn crtc_is_quarantined(&self, crtc: u32) -> (yes: bool)
        ensures
            yes == in_quarantine(self@.quarantined, crtc),
    {
        let primaries = collect_keys(&self.quarantined_groups);
        proof {
            assert forall|p: u32| #[trigger]
                self.quarantined_groups@.contains_key(p) <==> primaries@.contains(p) by {
                assert(primaries@.to_set().contains(p)
                    <==> self.quarantined_groups@.dom().contains(p));
            }
        }
        for i in 0..primaries.len()
            invariant
                forall|p: u32| #[trigger]
                    self.quarantined_groups@.contains_key(p) <==> primaries@.contains(p),
                forall|k: int|
                    0 <= k < i ==> self.quarantined_groups@[#[trigger] primaries@[k]].member_of(
                        crtc,
                    ) is None,
        {
            assert(primaries@.contains(primaries@[i as int]));
            assert(self.quarantined_groups@.contains_key(primaries@[i as int]));
            let found = match self.quarantined_groups.get(&primaries[i]) {
                Some(group) => {
                    let members = group.member_crtcs();
                    members[0] == crtc || members[1] == crtc
                },
                None => false,
            };
            if found {
                return true;
            }
        }
        proof {
            assert forall|p: u32| #[trigger]
                self.quarantined_groups@.contains_key(
                    p,
                ) implies self.quarantined_groups@[p].member_of(crtc) is None by {
                assert(primaries@.contains(p));
                let k = choose|k: int| 0 <= k < primaries@.len() && primaries@[k] == p;
                assert(self.quarantined_groups@[primaries@[k]].member_of(crtc) is None);
            }
        }
        false
    }

    pub fn members_are_quarantined(&self, members: [u32; 2]) -> (yes: bool)
        ensures
            yes == (in_quarantine(self@.quarantined, members@[0]) || in_quarantine(
                self@.quarantined,
                members@[1],
            )),
    {
        self.crtc_is_quarantined(members[0]) || self.crtc_is_quarantined(members[1])
    }
}

/// Whether a CRTC belongs to a quarantined group.
pub open spec fn in_quarantine<S, D, P>(groups: Map<u32, TiledGroup<S, D, P>>, crtc: u32) -> bool {
    exists|p: u32| #[trigger] groups.contains_key(p) && groups[p].member_of(crtc) is Some
}

// ---------------------------------------------------------------------------------------------
// Laws
// ---------------------------------------------------------------------------------------------

/// Publishing a group keeps the groups and their mapping consistent.
pub proof fn law_publishing_keeps_the_index_consistent<S, D, P>(
    live: LiveView<S, D, P>,
    group: TiledGroup<S, D, P>,
)
    requires
        live.consistent(),
        live.admits(group),
    ensures
        live.with_group(group).consistent(),
{
    let after = live.with_group(group);
    assert forall|p: u32| #[trigger] after.groups.contains_key(p) implies {
        &&& after.groups[p].left().crtc == p
        &&& after.by_crtc.contains_key(after.groups[p].left().crtc)
        &&& after.by_crtc[after.groups[p].left().crtc] == p
        &&& after.by_crtc.contains_key(after.groups[p].right().crtc)
        &&& after.by_crtc[after.groups[p].right().crtc] == p
    } by {
        if p != group.left().crtc {
            assert(live.groups.contains_key(p));
        }
    }
    assert forall|c: u32| #[trigger] after.by_crtc.contains_key(c) implies after.groups.contains_key(
        after.by_crtc[c],
    ) && (after.groups[after.by_crtc[c]].left().crtc == c
        || after.groups[after.by_crtc[c]].right().crtc == c) by {
        if c != group.left().crtc && c != group.right().crtc {
            assert(live.by_crtc.contains_key(c));
        }
    }
}

/// Taking a group keeps the groups and their mapping consistent.
pub proof fn law_taking_keeps_the_index_consistent<S, D, P>(live: LiveView<S, D, P>, crtc: u32)
    requires
        live.consistent(),
    ensures
        live.without_group_of(crtc).consistent(),
{
    if live.by_crtc.contains_key(crtc) {
        let primary = live.by_crtc[crtc];
        let after = live.without_group_of(crtc);
        assert forall|p: u32| #[trigger] after.groups.contains_key(p) implies {
            &&& after.groups[p].left().crtc == p
            &&& after.by_crtc.contains_key(after.groups[p].left().crtc)
            &&& after.by_crtc[after.groups[p].left().crtc] == p
            &&& after.by_crtc.contains_key(after.groups[p].right().crtc)
            &&& after.by_crtc[after.groups[p].right().crtc] == p
        } by {
            assert(live.groups.contains_key(p));
        }
        assert forall|c: u32| #[trigger]
            after.by_crtc.contains_key(c) implies after.groups.contains_key(after.by_crtc[c]) && (
        after.groups[after.by_crtc[c]].left().crtc == c || after.groups[after.by_crtc[c]].right().crtc
            == c) by {
            assert(live.by_crtc.contains_key(c));
        }
    }
}

/// Taking a group by either member right after it was published gives it back and leaves no trace.
pub proof fn law_taking_undoes_publishing<S, D, P>(
    live: LiveView<S, D, P>,
    group: TiledGroup<S, D, P>,
    crtc: u32,
)
    requires
        live.consistent(),
        live.admits(group),
        crtc == group.left().crtc || crtc == group.right().crtc,
    ensures
        live.with_group(group).group_of(crtc) == Some((group.left().crtc, group)),
        live.with_group(group).without_group_of(crtc) == live,
{
    let primary = group.left().crtc;
    let after = live.with_group(group);
    let back = after.without_group_of(crtc);
    assert(after.by_crtc[crtc] == primary);
    assert(back.groups =~= live.groups);
    assert forall|c: u32| #[trigger] live.by_crtc.contains_key(c) implies live.by_crtc[c]
        != primary by {
        assert(live.groups.contains_key(live.by_crtc[c]));
    }
    assert(back.by_crtc =~= live.by_crtc);
}

/// No CRTC belongs to two live groups.
pub proof fn law_live_groups_share_no_crtc<S, D, P>(
    live: LiveView<S, D, P>,
    a: u32,
    b: u32,
    crtc: u32,
)
    requires
        live.consistent(),
        live.groups.contains_key(a),
        live.groups.contains_key(b),
        live.groups[a].member_of(crtc) is Some,
        live.groups[b].member_of(crtc) is Some,
    ensures
        a == b,
{
    assert(live.by_crtc.contains_key(crtc));
}

/// From the time that a group is quarantined until it is taken out again, neither of its CRTCs can
/// be used for anything else, and no CRTC quarantined before becomes free.
pub proof fn law_quarantined_members_stay_reserved<S, D, P>(
    groups: Map<u32, TiledGroup<S, D, P>>,
    primary: u32,
    group: TiledGroup<S, D, P>,
    other: u32,
    crtc: u32,
)
    requires
        !groups.contains_key(primary),
        other != primary,
    ensures
        in_quarantine(groups.insert(primary, group), group.left().crtc),
        in_quarantine(groups.insert(primary, group), group.right().crtc),
        in_quarantine(groups.insert(primary, group).remove(other), group.left().crtc),
        in_quarantine(groups.insert(primary, group).remove(other), group.right().crtc),
        in_quarantine(groups, crtc) ==> in_quarantine(groups.insert(primary, group), crtc),
        groups.insert(primary, group).remove(primary) == groups,
{
    let held = groups.insert(primary, group);
    assert(held.contains_key(primary) && held[primary] == group);
    let rest = held.remove(other);
    assert(rest.contains_key(primary) && rest[primary] == group);
    if in_quarantine(groups, crtc) {
        let p = choose|p: u32| #[trigger]
            groups.contains_key(p) && groups[p].member_of(crtc) is Some;
        assert(held.contains_key(p) && held[p] == groups[p]);
    }
    assert(held.remove(primary) =~= groups);
}

/// A CRTC is in quarantine exactly when it drives a member of a quarantined group.
pub proof fn law_quarantine_holds_the_crtcs_of_its_groups<S, D, P>(
    groups: Map<u32, TiledGroup<S, D, P>>,
    primary: u32,
    group: TiledGroup<S, D, P>,
    crtc: u32,
)
    requires
        !groups.contains_key(primary),
    ensures
        !in_quarantine(Map::<u32, TiledGroup<S, D, P>>::empty(), crtc),
        in_quarantine(groups.insert(primary, group), crtc) <==> in_quarantine(groups, crtc) || crtc
            == group.left().crtc || crtc == group.right().crtc,
{
    let more = groups.insert(primary, group);
    if in_quarantine(groups, crtc) {
        let p = choose|p: u32| #[trigger]
            groups.contains_key(p) && groups[p].member_of(crtc) is Some;
        assert(more.contains_key(p) && more[p] == groups[p]);
    }
    assert(more.contains_key(primary));
    if in_quarantine(more, crtc) {
        let p = choose|p: u32| #[trigger] more.contains_key(p) && more[p].member_of(crtc) is Some;
        if p != primary {
            assert(groups.contains_key(p) && groups[p] == more[p]);
        }
    }
}

/// A published group is found by the CRTCs of both its members and by no CRTC that found nothing
/// before; groups that were published earlier are found as before.
pub proof fn law_published_groups_are_found_by_their_crtcs<S, D, P>(
    live: LiveView<S, D, P>,
    group: TiledGroup<S, D, P>,
    crtc: u32,
)
    requires
        live.consistent(),
        live.admits(group),
    ensures
        crtc == group.left().crtc || crtc == group.right().crtc ==> live.with_group(group).group_of(
            crtc,
        ) == Some((group.left().crtc, group)),
        crtc != group.left().crtc && crtc != group.right().crtc ==> live.with_group(group).group_of(
            crtc,
        ) == live.group_of(crtc),
        live.with_group(group).by_crtc.contains_key(crtc) <==> live.by_crtc.contains_key(crtc)
            || crtc == group.left().crtc || crtc == group.right().crtc,
        live.admits(group) <==> live.group_of(group.left().crtc) is None && live.group_of(
            group.right().crtc,
        ) is None,
{
    if live.by_crtc.contains_key(crtc) {
        assert(live.groups.contains_key(live.by_crtc[crtc]));
    }
}

/// Taking a group by the CRTC of a member takes that group, and afterwards none of its CRTCs finds
/// a group; every other group stays.
pub proof fn law_taken_groups_are_found_no_more<S, D, P>(
    live: LiveView<S, D, P>,
    crtc: u32,
    other: u32,
)
    requires
        live.consistent(),
    ensures
        live.group_of(crtc) is Some <==> live.by_crtc.contains_key(crtc),
        live.group_of(crtc) matches Some(found) ==> {
            &&& found.1.left().crtc == found.0
            &&& found.1.left().crtc == crtc || found.1.right().crtc == crtc
            &&& live.without_group_of(crtc).group_of(other) == (if other == found.1.left().crtc
                || other == found.1.right().crtc {
                None
            } else {
                live.group_of(other)
            })
        },
        live.group_of(crtc) is None ==> live.without_group_of(crtc) == live,
{
    if live.by_crtc.contains_key(crtc) {
        let primary = live.by_crtc[crtc];
        assert(live.groups.contains_key(primary));
        if live.by_crtc.contains_key(other) {
            assert(live.groups.contains_key(live.by_crtc[other]));
        }
    }
}

/// The traces of a logical output carry its key: its frames after the words that introduce them, its
/// plots before the words that say what is plotted.
pub proof fn law_traces_are_named_after_their_output(key: Seq<char>)
    ensures
        trace_names_for(key).vblank_frame == frame_name("vblank on "@ + key),
        trace_names_for(key).time_since_presentation == plot_name(
            key + " time since presentation, ms"@,
        ),
        trace_names_for(key).presentation_misprediction == plot_name(
            key + " presentation misprediction, ms"@,
        ),
        trace_names_for(key).sequence_delta == plot_name(key + " sequence delta"@),
{
}

/// A device that is made from a mapping alone has that mapping and nothing else: no group is live or
/// in quarantine, nothing has failed and no output has an identity yet.
pub proof fn law_fresh_devices_hold_a_mapping_alone<S, D, P>(by_crtc: Map<u32, u32>, crtc: u32)
    ensures
        ({
            let fresh = DeviceView::<S, D, P>::mapping_only(by_crtc);
            &&& fresh.live.by_crtc == by_crtc
            &&& !fresh.live.groups.contains_key(crtc)
            &&& fresh.live.group_of(crtc) is None
            &&& !in_quarantine(fresh.quarantined, crtc)
            &&& fresh.group_ids == Map::<Seq<char>, OutputId>::empty()
            &&& fresh.trace_names == Map::<Seq<char>, TiledTraceNames>::empty()
            &&& fresh.failures.entries == Map::<Seq<char>, TiledFailure>::empty()
            &&& fresh.disable_failures.entries == Map::<Seq<char>, TiledFailure>::empty()
            &&& fresh.failures.generation == 0
            &&& fresh.disable_failures.generation == 0
            &&& fresh.generation == 0
        }),
{
}

} // verus!
