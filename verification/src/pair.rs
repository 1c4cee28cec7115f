//! Which two connectors form the halves of one tiled panel.

use vstd::prelude::*;

use crate::formats::Format;
use crate::modes;
use crate::modes::advertised_refresh;
use crate::modes::DrmMode;
use crate::modes::TimingFingerprint;
use crate::names;
use crate::names::tiled_output_name;
use crate::names::NameView;
use crate::names::OutputName;
use crate::selection::ConnectorInfo;
use crate::tile::TileInfo;

verus! {

/// A connected connector that might become a tiled-group member.
#[derive(Debug)]
pub struct TileCandidate {
    /// Normalized EDID identity (`make model serial`).
    pub identity: String,
    /// Kernel TILE topology, if exposed.
    pub tile: Option<TileInfo>,
    /// Connector mode list, in kernel order (preferred first).
    pub modes: Vec<DrmMode>,
    /// Primary-plane pixel formats of the candidate's CRTC.
    pub plane_fourccs: Vec<u32>,
}

/// The contents of a candidate.
pub struct CandidateView {
    pub identity: Seq<char>,
    pub tile: Option<TileInfo>,
    pub modes: Seq<DrmMode>,
    pub plane_fourccs: Seq<u32>,
}

impl View for TileCandidate {
    type V = CandidateView;

    open spec fn view(&self) -> CandidateView {
        CandidateView {
            identity: self.identity@,
            tile: self.tile,
            modes: self.modes@,
            plane_fourccs: self.plane_fourccs@,
        }
    }
}

/// Why two candidates cannot be stitched.
#[derive(Debug, Clone, Copy, PartialEq, Eq, Structural)]
pub enum PairRejection {
    /// TILE topology is required (auto-detection) but missing on a connector.
    MissingTopology,
    /// The topology does not describe a single monitor.
    NotSingleMonitor,
    /// The topology is not a horizontal 2x1 grid.
    NotHorizontalPair,
    /// The tiles belong to different topology groups.
    GroupIdMismatch,
    /// The tiles disagree on tile dimensions.
    TileSizeMismatch,
    /// Both tiles claim the same position in the grid.
    DuplicatePosition,
    /// The tiles have different EDID identities (different physical panels).
    IdentityMismatch,
    /// No mode with byte-identical timings exists on both tiles.
    NoCommonMode,
    /// The tiles' potentially claimable primary planes have no pixel format in common.
    PlaneFormatMismatch,
}

impl PairRejection {
    /// The rejection in words.
    pub open spec fn message(self) -> Seq<char> {
        match self {
            PairRejection::MissingTopology => "missing TILE topology"@,
            PairRejection::NotSingleMonitor => "not a single-monitor topology"@,
            PairRejection::NotHorizontalPair => "not a horizontal 2x1 tile grid"@,
            PairRejection::GroupIdMismatch => "different TILE group ids"@,
            PairRejection::TileSizeMismatch => "different tile sizes"@,
            PairRejection::DuplicatePosition => "duplicate tile position"@,
            PairRejection::IdentityMismatch => "different EDID identities"@,
            PairRejection::NoCommonMode => "no mode with identical timings"@,
            PairRejection::PlaneFormatMismatch => "no common primary plane format"@,
        }
    }

    /// The rejection in words.
    pub fn to_string(&self) -> (text: String)
        ensures
            text@ == self.message(),
            *self is MissingTopology ==> text@ == "missing TILE topology"@,
            *self is NotSingleMonitor ==> text@ == "not a single-monitor topology"@,
            *self is NotHorizontalPair ==> text@ == "not a horizontal 2x1 tile grid"@,
            *self is GroupIdMismatch ==> text@ == "different TILE group ids"@,
            *self is TileSizeMismatch ==> text@ == "different tile sizes"@,
            *self is DuplicatePosition ==> text@ == "duplicate tile position"@,
            *self is IdentityMismatch ==> text@ == "different EDID identities"@,
            *self is NoCommonMode ==> text@ == "no mode with identical timings"@,
            *self is PlaneFormatMismatch ==> text@ == "no common primary plane format"@,
    {
        let text = match self {
            PairRejection::MissingTopology => "missing TILE topology",
            PairRejection::NotSingleMonitor => "not a single-monitor topology",
            PairRejection::NotHorizontalPair => "not a horizontal 2x1 tile grid",
            PairRejection::GroupIdMismatch => "different TILE group ids",
            PairRejection::TileSizeMismatch => "different tile sizes",
            PairRejection::DuplicatePosition => "duplicate tile position",
            PairRejection::IdentityMismatch => "different EDID identities",
            PairRejection::NoCommonMode => "no mode with identical timings",
            PairRejection::PlaneFormatMismatch => "no common primary plane format",
        };
        text.to_owned()
    }
}

/// Result of a successful [`validate_tile_pair`].
#[derive(Debug, Clone, Copy, PartialEq)]
pub struct ValidatedPair {
    /// The common native tile mode to drive both CRTCs with.
    pub tile_mode: DrmMode,
    /// Horizontal offset of candidate `a` within the full image, in pixels.
    pub a_x: u32,
    /// Horizontal offset of candidate `b` within the full image, in pixels.
    pub b_x: u32,
    /// Tile width in pixels.
    pub tile_w: u32,
    /// Tile height in pixels.
    pub tile_h: u32,
}

// ---------------------------------------------------------------------------------------------
// Model
// ---------------------------------------------------------------------------------------------

/// Whether a mode is progressive and has the wanted size.
pub open spec fn tile_mode_fits(mode: DrmMode, size: Option<(u32, u32)>) -> bool {
    &&& !mode.interlaced()
    &&& match size {
        Some(s) => mode.hdisplay == s.0 && mode.vdisplay == s.1,
        None => true,
    }
}

/// Whether `mode` fits and `other` has a fitting mode with the same timings.
pub open spec fn is_common(mode: DrmMode, other: Seq<DrmMode>, size: Option<(u32, u32)>) -> bool {
    &&& tile_mode_fits(mode, size)
    &&& exists|j: int|
        0 <= j < other.len() && #[trigger] tile_mode_fits(other[j], size) && modes::fingerprint(
            other[j],
        ) == modes::fingerprint(mode)
}

/// The first mode with a counterpart of identical timings.
pub open spec fn first_common(
    list: Seq<DrmMode>,
    other: Seq<DrmMode>,
    size: Option<(u32, u32)>,
) -> Option<DrmMode>
    decreases list.len(),
{
    if list.len() == 0 {
        None
    } else {
        match first_common(list.drop_last(), other, size) {
            Some(m) => Some(m),
            None => if is_common(list.last(), other, size) {
                Some(list.last())
            } else {
                None
            },
        }
    }
}

/// Whether the lists share a format code.
pub open spec fn share_fourcc(a: Seq<u32>, b: Seq<u32>) -> bool {
    exists|i: int| 0 <= i < a.len() && b.contains(#[trigger] a[i])
}

/// What is wrong with the topology that two tiles expose, if anything.
pub open spec fn topology_error(a: TileInfo, b: TileInfo) -> Option<PairRejection> {
    if !a.single_monitor || !b.single_monitor {
        Some(PairRejection::NotSingleMonitor)
    } else if a.num_h_tiles != 2 || a.num_v_tiles != 1 || b.num_h_tiles != 2 || b.num_v_tiles != 1 {
        Some(PairRejection::NotHorizontalPair)
    } else if a.group_id != b.group_id {
        Some(PairRejection::GroupIdMismatch)
    } else if a.tile_w != b.tile_w || a.tile_h != b.tile_h {
        Some(PairRejection::TileSizeMismatch)
    } else if a.tile_h_loc == b.tile_h_loc && a.tile_v_loc == b.tile_v_loc {
        Some(PairRejection::DuplicatePosition)
    } else if a.tile_v_loc != 0 || b.tile_v_loc != 0 {
        Some(PairRejection::NotHorizontalPair)
    } else {
        None
    }
}

/// What rules the pair out before its formats and modes are looked at.
pub open spec fn identity_error(
    a: CandidateView,
    b: CandidateView,
    require_topology: bool,
) -> Option<PairRejection> {
    if require_topology && a.identity != b.identity {
        Some(PairRejection::IdentityMismatch)
    } else if require_topology && (a.tile is None || b.tile is None) {
        Some(PairRejection::MissingTopology)
    } else {
        match (a.tile, b.tile) {
            (Some(ta), Some(tb)) => topology_error(ta, tb),
            _ => None,
        }
    }
}

/// The tile size that the exposed topology fixes.
pub open spec fn topology_size(a: Option<TileInfo>, b: Option<TileInfo>) -> Option<(u32, u32)> {
    match (a, b) {
        (Some(t), _) => Some((t.tile_w, t.tile_h)),
        (None, Some(t)) => Some((t.tile_w, t.tile_h)),
        (None, None) => None,
    }
}

/// Whether exactly the exposed topology puts the first candidate on the right.
pub open spec fn first_is_right(a: Option<TileInfo>, b: Option<TileInfo>) -> bool {
    (a matches Some(t) && t.tile_h_loc == 1) || (b matches Some(t) && t.tile_h_loc == 0)
}

/// The pair driven with the given mode.
pub open spec fn pair_with_mode(
    a: Option<TileInfo>,
    b: Option<TileInfo>,
    mode: DrmMode,
) -> Result<ValidatedPair, PairRejection> {
    match (a, b) {
        (Some(ta), Some(tb)) => if ta.tile_h_loc * ta.tile_w <= u32::MAX && tb.tile_h_loc
            * tb.tile_w <= u32::MAX {
            Ok(
                ValidatedPair {
                    tile_mode: mode,
                    a_x: (ta.tile_h_loc * ta.tile_w) as u32,
                    b_x: (tb.tile_h_loc * tb.tile_w) as u32,
                    tile_w: ta.tile_w,
                    tile_h: ta.tile_h,
                },
            )
        } else {
            Err(PairRejection::MissingTopology)
        },
        _ => Ok(
            ValidatedPair {
                tile_mode: mode,
                a_x: if first_is_right(a, b) {
                    mode.hdisplay as u32
                } else {
                    0
                },
                b_x: if first_is_right(a, b) {
                    0
                } else {
                    mode.hdisplay as u32
                },
                tile_w: mode.hdisplay as u32,
                tile_h: mode.vdisplay as u32,
            },
        ),
    }
}

/// The mode and geometry that drive the two candidates as one panel, or why they do not form one.
pub open spec fn tile_pair(
    a: CandidateView,
    b: CandidateView,
    require_topology: bool,
) -> Result<ValidatedPair, PairRejection> {
    match identity_error(a, b, require_topology) {
        Some(e) => Err(e),
        None => if !share_fourcc(a.plane_fourccs, b.plane_fourccs) {
            Err(PairRejection::PlaneFormatMismatch)
        } else {
            match first_common(a.modes, b.modes, topology_size(a.tile, b.tile)) {
                None => Err(PairRejection::NoCommonMode),
                Some(mode) => pair_with_mode(a.tile, b.tile, mode),
            }
        },
    }
}

// ---------------------------------------------------------------------------------------------
// Validation
// ---------------------------------------------------------------------------------------------

fn mode_fits(mode: &DrmMode, size: Option<(u32, u32)>) -> (fits: bool)
    ensures
        fits == tile_mode_fits(*mode, size),
{
    if mode.is_interlaced() {
        return false;
    }
    match size {
        Some(s) => mode.hdisplay as u32 == s.0 && mode.vdisplay as u32 == s.1,
        None => true,
    }
}

proof fn lemma_first_common_stays(
    list: Seq<DrmMode>,
    other: Seq<DrmMode>,
    size: Option<(u32, u32)>,
    i: int,
)
    requires
        0 <= i <= list.len(),
        first_common(list.take(i), other, size) is Some,
    ensures
        first_common(list, other, size) == first_common(list.take(i), other, size),
    decreases list.len(),
{
    if i == list.len() {
        assert(list.take(i) =~= list);
    } else {
        assert(list.drop_last().take(i) =~= list.take(i));
        lemma_first_common_stays(list.drop_last(), other, size, i);
    }
}

/// Finds the first mode in `list` (filtered to `size` if given) whose timings are byte-identical to
/// some mode in `other` (same filter).
pub fn common_mode(list: &[DrmMode], other: &[DrmMode], size: Option<(u32, u32)>) -> (found: Option<
    DrmMode,
>)
    ensures
        found == first_common(list@, other@, size),
{
    assert(list@.take(0) =~= Seq::empty());
    for i in 0..list.len()
        invariant
            first_common(list@.take(i as int), other@, size) is None,
    {
        let mode = list[i];
        proof {
            assert(list@.take(i + 1).drop_last() =~= list@.take(i as int));
            assert(list@.take(i + 1).last() == mode);
        }
        if mode_fits(&mode, size) {
            let timing = TimingFingerprint::from(mode);
            for j in 0..other.len()
                invariant
                    i < list@.len(),
                    mode == list@[i as int],
                    tile_mode_fits(mode, size),
                    timing == modes::fingerprint(mode),
                    list@.take(i + 1).drop_last() == list@.take(i as int),
                    list@.take(i + 1).last() == mode,
                    first_common(list@.take(i as int), other@, size) is None,
                    forall|k: int|
                        0 <= k < j ==> !(#[trigger] tile_mode_fits(other@[k], size)
                            && modes::fingerprint(other@[k]) == modes::fingerprint(mode)),
            {
                let candidate = other[j];
                if mode_fits(&candidate, size) && TimingFingerprint::from(candidate) == timing {
                    proof {
                        assert(tile_mode_fits(other@[j as int], size));
                        assert(is_common(mode, other@, size));
                        lemma_first_common_stays(list@, other@, size, i + 1);
                    }
                    return Some(mode);
                }
            }
        }
    }
    assert(list@.take(list@.len() as int) =~= list@);
    None
}

fn holds_code(list: &Vec<u32>, code: u32) -> (found: bool)
    ensures
        found == list@.contains(code),
{
    for i in 0..list.len()
        invariant
            forall|k: int| 0 <= k < i ==> list@[k] != code,
    {
        if list[i] == code {
            return true;
        }
    }
    false
}

/// Whether the lists share a format code.
pub fn have_common_fourcc(a: &Vec<u32>, b: &Vec<u32>) -> (shared: bool)
    ensures
        shared == share_fourcc(a@, b@),
{
    for i in 0..a.len()
        invariant
            forall|k: int| 0 <= k < i ==> !b@.contains(#[trigger] a@[k]),
    {
        if holds_code(b, a[i]) {
            return true;
        }
    }
    false
}

fn check_topology(a: TileInfo, b: TileInfo) -> (error: Option<PairRejection>)
    ensures
        error == topology_error(a, b),
{
    if !a.single_monitor || !b.single_monitor {
        return Some(PairRejection::NotSingleMonitor);
    }
    if a.num_h_tiles != 2 || a.num_v_tiles != 1 || b.num_h_tiles != 2 || b.num_v_tiles != 1 {
        return Some(PairRejection::NotHorizontalPair);
    }
    if a.group_id != b.group_id {
        return Some(PairRejection::GroupIdMismatch);
    }
    if a.tile_w != b.tile_w || a.tile_h != b.tile_h {
        return Some(PairRejection::TileSizeMismatch);
    }
    if a.tile_h_loc == b.tile_h_loc && a.tile_v_loc == b.tile_v_loc {
        return Some(PairRejection::DuplicatePosition);
    }
    // Vertical stacking is not supported; both tiles must be in row 0.
    if a.tile_v_loc != 0 || b.tile_v_loc != 0 {
        return Some(PairRejection::NotHorizontalPair);
    }
    None
}

/// Checks that two candidates form a valid tile pair and returns the mode and geometry to
/// drive them with.
///
/// With `require_topology` (auto-detection), both candidates must expose kernel TILE
/// topology describing one horizontal 2x1 monitor, share an EDID identity, and have
/// byte-identical timings. Without it (an explicit declaration), identity and topology
/// presence are not required; if both tiles still expose topology, it is validated and its
/// positions are authoritative, otherwise a side-by-side layout is synthesized with the
/// first candidate as the left tile and the tile size taken from the common mode.
pub fn validate_tile_pair(a: &TileCandidate, b: &TileCandidate, require_topology: bool) -> (pair:
    Result<ValidatedPair, PairRejection>)
    ensures
        pair == tile_pair(a@, b@, require_topology),
{
    if require_topology {
        // Auto-detection must never cross-pair two physical panels.
        if a.identity != b.identity {
            return Err(PairRejection::IdentityMismatch);
        }
        if a.tile.is_none() || b.tile.is_none() {
            return Err(PairRejection::MissingTopology);
        }
    }
    if let (Some(ta), Some(tb)) = (a.tile, b.tile) {
        if let Some(error) = check_topology(ta, tb) {
            return Err(error);
        }
    }
    if !have_common_fourcc(&a.plane_fourccs, &b.plane_fourccs) {
        return Err(PairRejection::PlaneFormatMismatch);
    }
    // A one-sided TILE property is still useful for selecting the native mode. Without this
    // constraint an explicit group could select an earlier, lower-resolution common mode merely
    // because the other connector did not expose topology.
    let size = match a.tile {
        Some(t) => Some((t.tile_w, t.tile_h)),
        None => match b.tile {
            Some(t) => Some((t.tile_w, t.tile_h)),
            None => None,
        },
    };
    let tile_mode = match common_mode(a.modes.as_slice(), b.modes.as_slice(), size) {
        Some(mode) => mode,
        None => {
            return Err(PairRejection::NoCommonMode);
        },
    };
    if let (Some(ta), Some(tb)) = (a.tile, b.tile) {
        match (ta.x_off(), tb.x_off()) {
            (Some(a_x), Some(b_x)) => Ok(
                ValidatedPair { tile_mode, a_x, b_x, tile_w: ta.tile_w, tile_h: ta.tile_h },
            ),
            _ => Err(PairRejection::MissingTopology),
        }
    } else {
        // The first connector listed is the left tile, unless exactly one tile exposes topology
        // placing it on the right.
        let tile_w: u32 = tile_mode.hdisplay as u32;
        let tile_h: u32 = tile_mode.vdisplay as u32;
        let a_tells = match a.tile {
            Some(t) => t.tile_h_loc == 1,
            None => false,
        };
        let b_tells = match b.tile {
            Some(t) => t.tile_h_loc == 0,
            None => false,
        };
        if a_tells || b_tells {
            Ok(ValidatedPair { tile_mode, a_x: tile_w, b_x: 0, tile_w, tile_h })
        } else {
            Ok(ValidatedPair { tile_mode, a_x: 0, b_x: tile_w, tile_w, tile_h })
        }
    }
}

// ---------------------------------------------------------------------------------------------
// Live connectors
// ---------------------------------------------------------------------------------------------

/// A live connector of the device being planned.
#[derive(Debug)]
pub struct ConnectedTile {
    pub connector: ConnectorInfo,
    pub crtc: u32,
    pub name: OutputName,
    /// Normalized EDID identity (`make model serial`).
    pub identity: String,
    /// Kernel TILE topology, if exposed.
    pub tile: Option<TileInfo>,
    /// Formats of each primary plane of the CRTC; `None` where the planes could not be read.
    pub planes: Option<Vec<Vec<Format>>>,
    /// Whether the configuration turns an output of this name off.
    pub configured_off: bool,
}

/// One member of a planned tiled group.
#[derive(Debug, Clone, Copy, PartialEq, Eq, Structural)]
pub struct TiledMemberPlan {
    pub connector: u32,
    pub crtc: u32,
    /// Horizontal offset of this tile within the full image, in pixels.
    pub crtc_x: u32,
    pub tile_w: u32,
    pub tile_h: u32,
}

/// A fully validated plan to stitch two connectors into one logical output.
#[derive(Debug)]
pub struct TiledGroupPlan {
    /// Ordered by `crtc_x`; `members[0]` is the left (primary) tile.
    pub members: [TiledMemberPlan; 2],
    /// Group output name; connector is the member names joined with `+` (e.g. `DP-4+DP-5`),
    /// make/model/serial come from the left tile's EDID unless monitor names are disabled.
    pub name: OutputName,
    /// Index of the output declaration selected for this group, when one exists.
    pub config: Option<usize>,
    /// The common native tile mode each member CRTC is driven with.
    pub tile_mode: DrmMode,
}

/// The contents of a tiled plan.
pub struct TiledPlanView {
    pub members: Seq<TiledMemberPlan>,
    pub name: NameView,
    pub config: Option<usize>,
    pub tile_mode: DrmMode,
}

impl View for TiledGroupPlan {
    type V = TiledPlanView;

    open spec fn view(&self) -> TiledPlanView {
        TiledPlanView {
            members: self.members@,
            name: self.name@,
            config: self.config,
            tile_mode: self.tile_mode,
        }
    }
}

/// Size and refresh rate of a logical output, as advertised to clients.
#[derive(Debug, Clone, Copy, PartialEq, Eq, Structural)]
pub struct WlMode {
    pub width: i32,
    pub height: i32,
    /// Refresh rate in mHz.
    pub refresh: i32,
}

/// The codes in `codes` followed by those of the first `n` formats that are not yet among them.
pub open spec fn with_codes(codes: Seq<u32>, formats: Seq<Format>, n: int) -> Seq<u32>
    decreases n,
{
    if n <= 0 {
        codes
    } else {
        let before = with_codes(codes, formats, n - 1);
        if before.contains(formats[n - 1].code) {
            before
        } else {
            before.push(formats[n - 1].code)
        }
    }
}

/// The distinct format codes of the first `n` planes, in the order in which they appear.
pub open spec fn plane_codes(planes: Seq<Vec<Format>>, n: int) -> Seq<u32>
    decreases n,
{
    if n <= 0 {
        Seq::empty()
    } else {
        with_codes(
            plane_codes(planes, n - 1),
            planes[n - 1]@,
            planes[n - 1]@.len() as int,
        )
    }
}

/// The candidate that a live connector makes.
pub open spec fn candidate_of(tile: ConnectedTile) -> Option<CandidateView> {
    match tile.planes {
        Some(planes) => Some(
            CandidateView {
                identity: tile.identity@,
                tile: tile.tile,
                modes: tile.connector.modes@,
                plane_fourccs: plane_codes(planes@, planes@.len() as int),
            },
        ),
        None => None,
    }
}

/// The plan that stitches a left and a right connector.
pub open spec fn stitched(
    left: ConnectedTile,
    left_x: u32,
    right: ConnectedTile,
    right_x: u32,
    pair: ValidatedPair,
    disable_monitor_names: bool,
) -> TiledPlanView {
    TiledPlanView {
        members: seq![
            TiledMemberPlan {
                connector: left.connector.handle,
                crtc: left.crtc,
                crtc_x: left_x,
                tile_w: pair.tile_w,
                tile_h: pair.tile_h,
            },
            TiledMemberPlan {
                connector: right.connector.handle,
                crtc: right.crtc,
                crtc_x: right_x,
                tile_w: pair.tile_w,
                tile_h: pair.tile_h,
            },
        ],
        name: names::tiled_name(left.name@, right.name@, disable_monitor_names),
        config: None,
        tile_mode: pair.tile_mode,
    }
}

/// The plan that stitches two live connectors, where they form a pair.
pub open spec fn pair_plan(
    a: ConnectedTile,
    b: ConnectedTile,
    require_topology: bool,
    disable_monitor_names: bool,
) -> Option<TiledPlanView> {
    match (candidate_of(a), candidate_of(b)) {
        (Some(ca), Some(cb)) => match tile_pair(ca, cb, require_topology) {
            Ok(pair) => Some(
                if pair.a_x <= pair.b_x {
                    stitched(a, pair.a_x, b, pair.b_x, pair, disable_monitor_names)
                } else {
                    stitched(b, pair.b_x, a, pair.a_x, pair, disable_monitor_names)
                },
            ),
            Err(_) => None,
        },
        _ => None,
    }
}

/// A copy of a mode list.
fn copy_modes(modes: &Vec<DrmMode>) -> (copy: Vec<DrmMode>)
    ensures
        copy@ == modes@,
{
    let mut copy: Vec<DrmMode> = Vec::new();
    for i in 0..modes.len()
        invariant
            copy@ == modes@.take(i as int),
    {
        copy.push(modes[i]);
        assert(copy@ =~= modes@.take(i + 1));
    }
    assert(modes@.take(modes@.len() as int) =~= modes@);
    copy
}

/// Builds a grouping candidate from live connector state.
pub fn tiled_candidate(tile: &ConnectedTile) -> (candidate: Option<TileCandidate>)
    ensures
        match candidate {
            Some(c) => candidate_of(*tile) == Some(c@),
            None => candidate_of(*tile) is None,
        },
{
    let planes = match &tile.planes {
        Some(planes) => planes,
        None => {
            return None;
        },
    };
    let mut plane_fourccs: Vec<u32> = Vec::new();
    for i in 0..planes.len()
        invariant
            plane_fourccs@ == plane_codes(planes@, i as int),
    {
        let ghost before = plane_fourccs@;
        let plane = &planes[i];
        for k in 0..plane.len()
            invariant
                plane_fourccs@ == with_codes(before, plane@, k as int),
        {
            if !holds_code(&plane_fourccs, plane[k].code) {
                plane_fourccs.push(plane[k].code);
            }
        }
    }
    Some(
        TileCandidate {
            identity: tile.identity.clone(),
            tile: tile.tile,
            modes: copy_modes(&tile.connector.modes),
            plane_fourccs,
        },
    )
}

/// Why two live connectors, whose planes are known, do not form a pair.
pub open spec fn pair_rejection(
    a: ConnectedTile,
    b: ConnectedTile,
    require_topology: bool,
) -> Option<PairRejection> {
    match (candidate_of(a), candidate_of(b)) {
        (Some(ca), Some(cb)) => match tile_pair(ca, cb, require_topology) {
            Ok(_) => None,
            Err(rejection) => Some(rejection),
        },
        _ => None,
    }
}

/// Why two live connectors, whose planes are known, do not form a pair.
pub fn tiled_pair_rejection(a: &ConnectedTile, b: &ConnectedTile, require_topology: bool) -> (rejection:
    Option<PairRejection>)
    ensures
        rejection == pair_rejection(*a, *b, require_topology),
{
    match tiled_candidate(a) {
        None => None,
        Some(ca) => match tiled_candidate(b) {
            None => None,
            Some(cb) => match validate_tile_pair(&ca, &cb, require_topology) {
                Ok(_) => None,
                Err(rejection) => Some(rejection),
            },
        },
    }
}

/// Validates two live connectors and assembles a left-to-right tiled-group plan.
pub fn tiled_claim_pair(
    a: &ConnectedTile,
    b: &ConnectedTile,
    require_topology: bool,
    disable_monitor_names: bool,
) -> (plan: Option<TiledGroupPlan>)
    ensures
        match plan {
            Some(p) => pair_plan(*a, *b, require_topology, disable_monitor_names) == Some(p@),
            None => pair_plan(*a, *b, require_topology, disable_monitor_names) is None,
        },
{
    let ca = match tiled_candidate(a) {
        Some(candidate) => candidate,
        None => {
            return None;
        },
    };
    let cb = match tiled_candidate(b) {
        Some(candidate) => candidate,
        None => {
            return None;
        },
    };
    let pair = match validate_tile_pair(&ca, &cb, require_topology) {
        Ok(pair) => pair,
        Err(_) => {
            return None;
        },
    };
    let a_first = pair.a_x <= pair.b_x;
    let left = if a_first {
        a
    } else {
        b
    };
    let right = if a_first {
        b
    } else {
        a
    };
    let left_x: u32 = if a_first {
        pair.a_x
    } else {
        pair.b_x
    };
    let right_x: u32 = if a_first {
        pair.b_x
    } else {
        pair.a_x
    };
    let plan = TiledGroupPlan {
        members: [
            TiledMemberPlan {
                connector: left.connector.handle,
                crtc: left.crtc,
                crtc_x: left_x,
                tile_w: pair.tile_w,
                tile_h: pair.tile_h,
            },
            TiledMemberPlan {
                connector: right.connector.handle,
                crtc: right.crtc,
                crtc_x: right_x,
                tile_w: pair.tile_w,
                tile_h: pair.tile_h,
            },
        ],
        name: tiled_output_name(&left.name, &right.name, disable_monitor_names),
        config: None,
        tile_mode: pair.tile_mode,
    };
    proof {
        let expected = stitched(*left, left_x, *right, right_x, pair, disable_monitor_names);
        assert(plan@.members =~= expected.members);
    }
    Some(plan)
}

impl TiledGroupPlan {
    pub fn primary_crtc(&self) -> (crtc: u32)
        ensures
            crtc == self@.members[0].crtc,
    {
        self.members[0].crtc
    }

    pub fn member_crtcs(&self) -> (crtcs: [u32; 2])
        ensures
            crtcs@ == seq![self@.members[0].crtc, self@.members[1].crtc],
    {
        let crtcs = [self.members[0].crtc, self.members[1].crtc];
        assert(crtcs@ =~= seq![self@.members[0].crtc, self@.members[1].crtc]);
        crtcs
    }

    /// Stable key for caching the group's identity across hotplug.
    pub fn key(&self) -> (key: &str)
        ensures
            key@ == self@.name.connector,
    {
        self.name.connector.as_str()
    }

    /// The synthesized full-size mode advertised on the logical output (e.g. 5120x2880@60).
    ///
    /// This mode is a pure container for clients; each tile CRTC is driven with its own
    /// native half-mode, so no pixel clock needs to be derived here.
    pub fn wl_mode(&self) -> (mode: WlMode)
        requires
            self@.tile_mode.wf(),
            self@.members[0].tile_w + self@.members[1].tile_w <= u32::MAX,
        ensures
            mode.width == ((self@.members[0].tile_w + self@.members[1].tile_w) as u32) as i32,
            mode.height == self@.members[0].tile_h as i32,
            mode.refresh == modes::signed_refresh(self@.tile_mode),
    {
        let width: u32 = self.members[0].tile_w + self.members[1].tile_w;
        WlMode {
            width: width as i32,
            height: self.members[0].tile_h as i32,
            refresh: advertised_refresh(&self.tile_mode),
        }
    }
}

// ---------------------------------------------------------------------------------------------
// Laws
// ---------------------------------------------------------------------------------------------

proof fn lemma_first_common(list: Seq<DrmMode>, other: Seq<DrmMode>, size: Option<(u32, u32)>)
    ensures
        match first_common(list, other, size) {
            Some(m) => list.contains(m) && is_common(m, other, size),
            None => forall|i: int|
                0 <= i < list.len() ==> !is_common(#[trigger] list[i], other, size),
        },
    decreases list.len(),
{
    if list.len() > 0 {
        lemma_first_common(list.drop_last(), other, size);
        match first_common(list.drop_last(), other, size) {
            Some(m) => {
                let i = choose|i: int|
                    0 <= i < list.drop_last().len() && list.drop_last()[i] == m;
                assert(list[i] == m);
            },
            None => {
                assert forall|i: int| 0 <= i < list.len() - 1 implies !is_common(
                    #[trigger] list[i],
                    other,
                    size,
                ) by {
                    assert(!is_common(list.drop_last()[i], other, size));
                }
                assert(list[list.len() - 1] == list.last());
            },
        }
    }
}

/// The two tiles of a pair sit side by side, and their mode has exactly the tile size.
pub proof fn law_tiles_are_side_by_side(a: CandidateView, b: CandidateView, require_topology: bool)
    requires
        a.tile matches Some(t) ==> t.valid(),
        b.tile matches Some(t) ==> t.valid(),
    ensures
        tile_pair(a, b, require_topology) matches Ok(pair) ==> {
            &&& (pair.a_x == 0 && pair.b_x == pair.tile_w) || (pair.a_x == pair.tile_w && pair.b_x
                == 0)
            &&& pair.tile_mode.hdisplay == pair.tile_w
            &&& pair.tile_mode.vdisplay == pair.tile_h
        },
{
    let size = topology_size(a.tile, b.tile);
    lemma_first_common(a.modes, b.modes, size);
    if let Ok(pair) = tile_pair(a, b, require_topology) {
        assert(is_common(pair.tile_mode, b.modes, size));
        if let (Some(ta), Some(tb)) = (a.tile, b.tile) {
            assert(ta.tile_h_loc == 0 || ta.tile_h_loc == 1);
            assert(tb.tile_h_loc == 0 || tb.tile_h_loc == 1);
            assert(0 * ta.tile_w == 0 && 1 * ta.tile_w == ta.tile_w);
        }
    }
}

/// Both halves of a pair can be driven with its mode: the first lists the mode itself, the second
/// one with byte-identical timings, both progressive.
pub proof fn law_pair_mode_is_common(a: CandidateView, b: CandidateView, require_topology: bool)
    ensures
        tile_pair(a, b, require_topology) matches Ok(pair) ==> {
            &&& a.modes.contains(pair.tile_mode)
            &&& !pair.tile_mode.interlaced()
            &&& exists|j: int|
                0 <= j < b.modes.len() && !(#[trigger] b.modes[j]).interlaced()
                    && modes::fingerprint(b.modes[j]) == modes::fingerprint(pair.tile_mode)
            &&& share_fourcc(a.plane_fourccs, b.plane_fourccs)
        },
{
    let size = topology_size(a.tile, b.tile);
    lemma_first_common(a.modes, b.modes, size);
    if let Ok(pair) = tile_pair(a, b, require_topology) {
        assert(is_common(pair.tile_mode, b.modes, size));
        let j = choose|j: int|
            0 <= j < b.modes.len() && #[trigger] tile_mode_fits(b.modes[j], size)
                && modes::fingerprint(b.modes[j]) == modes::fingerprint(pair.tile_mode);
        assert(!b.modes[j].interlaced());
    }
}

/// Auto-detection never pairs two physical panels, nor tiles of different topology groups.
pub proof fn law_auto_detection_keeps_panels_apart(a: CandidateView, b: CandidateView)
    ensures
        tile_pair(a, b, true) is Ok ==> {
            &&& a.identity == b.identity
            &&& a.tile matches Some(ta) && b.tile matches Some(tb) && ta.group_id == tb.group_id
                && ta.single_monitor && tb.single_monitor
        },
{
}

/// A plan lists its left tile first, under the name that both connectors give together.
pub proof fn law_plan_members_are_ordered_left_to_right(
    a: ConnectedTile,
    b: ConnectedTile,
    require_topology: bool,
    disable_monitor_names: bool,
)
    ensures
        pair_plan(a, b, require_topology, disable_monitor_names) matches Some(plan) ==> {
            &&& plan.members.len() == 2
            &&& plan.members[0].crtc_x <= plan.members[1].crtc_x
            &&& (plan.members[0].crtc == a.crtc && plan.members[1].crtc == b.crtc) || (
            plan.members[0].crtc == b.crtc && plan.members[1].crtc == a.crtc)
            &&& plan.name.connector == names::tiled_name(a.name@, b.name@, true).connector
        },
{
    names::law_tiled_connector_ignores_tile_order(a.name@, b.name@, true);
}

proof fn lemma_common_is_symmetric(
    list: Seq<DrmMode>,
    other: Seq<DrmMode>,
    size: Option<(u32, u32)>,
)
    requires
        first_common(list, other, size) is Some,
    ensures
        first_common(other, list, size) is Some,
{
    lemma_first_common(list, other, size);
    lemma_first_common(other, list, size);
    let m = first_common(list, other, size)->0;
    let i = choose|i: int| 0 <= i < list.len() && list[i] == m;
    let j = choose|j: int|
        0 <= j < other.len() && #[trigger] tile_mode_fits(other[j], size) && modes::fingerprint(
            other[j],
        ) == modes::fingerprint(m);
    assert(tile_mode_fits(list[i], size));
    assert(is_common(other[j], list, size));
}

/// Where both tiles expose topology, the order in which they are given does not matter: either
/// order fails with the same rejection, or puts the same tile left.
pub proof fn law_topology_overrides_order(
    a: CandidateView,
    b: CandidateView,
    require_topology: bool,
)
    requires
        a.tile is Some,
        b.tile is Some,
    ensures
        match tile_pair(a, b, require_topology) {
            Ok(pair) => tile_pair(b, a, require_topology) matches Ok(swapped) && swapped.a_x
                == pair.b_x && swapped.b_x == pair.a_x && swapped.tile_w == pair.tile_w
                && swapped.tile_h == pair.tile_h,
            Err(e) => tile_pair(b, a, require_topology) == Err::<ValidatedPair, PairRejection>(e),
        },
{
    let size = topology_size(a.tile, b.tile);
    if share_fourcc(a.plane_fourccs, b.plane_fourccs) {
        lemma_fourccs_symmetric(a.plane_fourccs, b.plane_fourccs);
    }
    if share_fourcc(b.plane_fourccs, a.plane_fourccs) {
        lemma_fourccs_symmetric(b.plane_fourccs, a.plane_fourccs);
    }
    if identity_error(a, b, require_topology) is None {
        assert(topology_size(b.tile, a.tile) == size);
        if first_common(a.modes, b.modes, size) is Some {
            lemma_common_is_symmetric(a.modes, b.modes, size);
        }
        if first_common(b.modes, a.modes, size) is Some {
            lemma_common_is_symmetric(b.modes, a.modes, size);
        }
    }
}

proof fn lemma_fourccs_symmetric(a: Seq<u32>, b: Seq<u32>)
    requires
        share_fourcc(a, b),
    ensures
        share_fourcc(b, a),
{
    let i = choose|i: int| 0 <= i < a.len() && b.contains(#[trigger] a[i]);
    let j = choose|j: int| 0 <= j < b.len() && b[j] == a[i];
    assert(a.contains(b[j]));
}

/// The mode of a stitched pair is one that the first tile lists, and it agrees with a mode that the
/// second tile lists in every timing. Neither is interlaced, and both fill their tile.
pub proof fn law_both_tiles_run_the_same_timings(
    a: CandidateView,
    b: CandidateView,
    require_topology: bool,
)
    requires
        tile_pair(a, b, require_topology) is Ok,
    ensures
        ({
            let mode = (tile_pair(a, b, require_topology)->Ok_0).tile_mode;
            &&& a.modes.contains(mode)
            &&& mode.flags & 0x10 == 0
            &&& exists|j: int|
                {
                    &&& 0 <= j < b.modes.len()
                    &&& (#[trigger] b.modes[j]).clock == mode.clock
                    &&& b.modes[j].hdisplay == mode.hdisplay
                    &&& b.modes[j].hsync_start == mode.hsync_start
                    &&& b.modes[j].hsync_end == mode.hsync_end
                    &&& b.modes[j].htotal == mode.htotal
                    &&& b.modes[j].vdisplay == mode.vdisplay
                    &&& b.modes[j].vsync_start == mode.vsync_start
                    &&& b.modes[j].vsync_end == mode.vsync_end
                    &&& b.modes[j].vtotal == mode.vtotal
                    &&& b.modes[j].hskew == mode.hskew
                    &&& b.modes[j].vscan == mode.vscan
                    &&& b.modes[j].vrefresh == mode.vrefresh
                    &&& b.modes[j].flags == mode.flags
                }
        }),
{
    let mode = (tile_pair(a, b, require_topology)->Ok_0).tile_mode;
    law_pair_mode_is_common(a, b, require_topology);
    let j = choose|j: int|
        0 <= j < b.modes.len() && !(#[trigger] b.modes[j]).interlaced() && modes::fingerprint(
            b.modes[j],
        ) == modes::fingerprint(mode);
    modes::law_timing_identity_is_exact(b.modes[j], mode);
    assert(b.modes[j].clock == mode.clock);
}

/// Two tiles with topologies are paired only as the halves of one monitor of two tiles across and
/// one down: of one group, of one size, and at different places in the one row.
pub proof fn law_paired_topologies_are_two_halves(
    a: CandidateView,
    b: CandidateView,
    require_topology: bool,
)
    requires
        tile_pair(a, b, require_topology) is Ok,
    ensures
        a.tile matches Some(ta) ==> (b.tile matches Some(tb) ==> {
            let pair = tile_pair(a, b, require_topology)->Ok_0;
            &&& ta.single_monitor && tb.single_monitor
            &&& ta.num_h_tiles == 2 && tb.num_h_tiles == 2
            &&& ta.num_v_tiles == 1 && tb.num_v_tiles == 1
            &&& ta.group_id == tb.group_id
            &&& ta.tile_w == tb.tile_w && ta.tile_h == tb.tile_h
            &&& ta.tile_v_loc == 0 && tb.tile_v_loc == 0
            &&& ta.tile_h_loc != tb.tile_h_loc
            &&& pair.a_x == ta.tile_h_loc * ta.tile_w
            &&& pair.b_x == tb.tile_h_loc * tb.tile_w
            &&& pair.tile_w == ta.tile_w
            &&& pair.tile_h == ta.tile_h
        }),
        require_topology ==> a.tile is Some && b.tile is Some && a.identity == b.identity,
        exists|i: int|
            0 <= i < a.plane_fourccs.len() && b.plane_fourccs.contains(
                #[trigger] a.plane_fourccs[i],
            ),
{
}

/// Two halves of one monitor that share a pixel format and a progressive mode of the tile size with
/// the same timings are paired.
pub proof fn law_matching_halves_are_paired(
    a: CandidateView,
    b: CandidateView,
    require_topology: bool,
    ta: TileInfo,
    tb: TileInfo,
    i: int,
    j: int,
    f: int,
)
    requires
        a.tile == Some(ta),
        b.tile == Some(tb),
        ta.valid(),
        tb.valid(),
        require_topology ==> a.identity == b.identity,
        ta.single_monitor && tb.single_monitor,
        ta.num_h_tiles == 2 && tb.num_h_tiles == 2,
        ta.num_v_tiles == 1 && tb.num_v_tiles == 1,
        ta.group_id == tb.group_id,
        ta.tile_w == tb.tile_w && ta.tile_h == tb.tile_h,
        ta.tile_h_loc != tb.tile_h_loc,
        0 <= i < a.modes.len(),
        0 <= j < b.modes.len(),
        a.modes[i].flags & 0x10 == 0,
        a.modes[i].hdisplay == ta.tile_w,
        a.modes[i].vdisplay == ta.tile_h,
        modes::fingerprint(a.modes[i]) == modes::fingerprint(b.modes[j]),
        0 <= f < a.plane_fourccs.len(),
        b.plane_fourccs.contains(a.plane_fourccs[f]),
    ensures
        tile_pair(a, b, require_topology) is Ok,
{
    let size = topology_size(a.tile, b.tile);
    modes::law_timing_identity_is_exact(a.modes[i], b.modes[j]);
    assert(tile_mode_fits(b.modes[j], size));
    assert(is_common(a.modes[i], b.modes, size));
    lemma_first_common(a.modes, b.modes, size);
    assert(share_fourcc(a.plane_fourccs, b.plane_fourccs));
}

/// Each reason for which two tiles are not paired comes with what it names, and the first that
/// applies is given: identity, topology, pixel format, mode.
pub proof fn law_pairs_are_refused_for_the_reason_given(
    a: CandidateView,
    b: CandidateView,
    require_topology: bool,
)
    ensures
        require_topology && a.identity != b.identity ==> tile_pair(a, b, require_topology) == Err::<
            ValidatedPair,
            PairRejection,
        >(PairRejection::IdentityMismatch),
        require_topology && a.identity == b.identity && (a.tile is None || b.tile is None)
            ==> tile_pair(a, b, require_topology) == Err::<ValidatedPair, PairRejection>(
            PairRejection::MissingTopology,
        ),
        tile_pair(a, b, require_topology) matches Err(e) ==> {
            &&& e is IdentityMismatch ==> require_topology && a.identity != b.identity
            &&& e is NotSingleMonitor ==> (a.tile matches Some(ta) && b.tile matches Some(tb) && !(
            ta.single_monitor && tb.single_monitor))
            &&& e is GroupIdMismatch ==> (a.tile matches Some(ta) && b.tile matches Some(tb)
                && ta.group_id != tb.group_id)
            &&& e is TileSizeMismatch ==> (a.tile matches Some(ta) && b.tile matches Some(tb) && (
            ta.tile_w != tb.tile_w || ta.tile_h != tb.tile_h))
            &&& e is DuplicatePosition ==> (a.tile matches Some(ta) && b.tile matches Some(tb)
                && ta.tile_h_loc == tb.tile_h_loc && ta.tile_v_loc == tb.tile_v_loc)
            &&& e is NotHorizontalPair ==> (a.tile matches Some(ta) && b.tile matches Some(tb) && !(
            ta.num_h_tiles == 2 && tb.num_h_tiles == 2 && ta.num_v_tiles == 1 && tb.num_v_tiles == 1
                && ta.tile_v_loc == 0 && tb.tile_v_loc == 0))
            &&& e is PlaneFormatMismatch ==> forall|i: int|
                0 <= i < a.plane_fourccs.len() ==> !b.plane_fourccs.contains(
                    #[trigger] a.plane_fourccs[i],
                )
        },
{
}

/// Without a topology on both tiles, the one tile that has one says which is left; with none at all
/// the first is left. Tiles are then as large as their mode.
pub proof fn law_unknown_places_follow_the_order_given(
    a: CandidateView,
    b: CandidateView,
    require_topology: bool,
)
    requires
        tile_pair(a, b, require_topology) is Ok,
        a.tile is None || b.tile is None,
    ensures
        ({
            let pair = tile_pair(a, b, require_topology)->Ok_0;
            let width = pair.tile_mode.hdisplay;
            &&& pair.tile_w == width
            &&& pair.tile_h == pair.tile_mode.vdisplay
            &&& a.tile is None && b.tile is None ==> pair.a_x == 0 && pair.b_x == width
            &&& a.tile matches Some(t) ==> {
                &&& t.tile_h_loc == 1 ==> pair.a_x == width && pair.b_x == 0
                &&& t.tile_h_loc != 1 ==> pair.a_x == 0 && pair.b_x == width
                &&& t.tile_w == width && t.tile_h == pair.tile_mode.vdisplay
            }
            &&& b.tile matches Some(t) ==> {
                &&& t.tile_h_loc == 0 ==> pair.a_x == width && pair.b_x == 0
                &&& t.tile_h_loc != 0 ==> pair.a_x == 0 && pair.b_x == width
                &&& t.tile_w == width && t.tile_h == pair.tile_mode.vdisplay
            }
        }),
{
    lemma_first_common(a.modes, b.modes, topology_size(a.tile, b.tile));
}

/// The planned members are the two tiles with their connectors, CRTCs and offsets, left one first;
/// the logical output is named after the left one.
pub proof fn law_planned_members_are_the_two_tiles(
    a: ConnectedTile,
    b: ConnectedTile,
    require_topology: bool,
    disable_monitor_names: bool,
)
    ensures
        pair_plan(a, b, require_topology, disable_monitor_names) matches Some(plan) ==> {
            let pair = tile_pair(candidate_of(a)->0, candidate_of(b)->0, require_topology)->Ok_0;
            let left = if pair.a_x <= pair.b_x {
                a
            } else {
                b
            };
            let right = if pair.a_x <= pair.b_x {
                b
            } else {
                a
            };
            &&& plan.members.len() == 2
            &&& plan.members[0].connector == left.connector.handle
            &&& plan.members[0].crtc == left.crtc
            &&& plan.members[1].connector == right.connector.handle
            &&& plan.members[1].crtc == right.crtc
            &&& pair.a_x <= pair.b_x ==> plan.members[0].crtc_x == pair.a_x
                && plan.members[1].crtc_x == pair.b_x
            &&& pair.a_x > pair.b_x ==> plan.members[0].crtc_x == pair.b_x && plan.members[1].crtc_x
                == pair.a_x
            &&& forall|i: int|
                0 <= i < 2 ==> (#[trigger] plan.members[i]).tile_w == pair.tile_w
                    && plan.members[i].tile_h == pair.tile_h
            &&& plan.tile_mode == pair.tile_mode
            &&& plan.config is None
            &&& disable_monitor_names ==> plan.name.make is None && plan.name.model is None
                && plan.name.serial is None
            &&& !disable_monitor_names ==> plan.name.make == left.name@.make && plan.name.model
                == left.name@.model && plan.name.serial == left.name@.serial
        },
{
}

/// A connected tile takes part with its own identity, topology and modes, and with every pixel
/// format that some plane offers; without planes it takes no part.
pub proof fn law_candidates_carry_what_the_tile_offers(tile: ConnectedTile, code: u32)
    ensures
        candidate_of(tile) is Some <==> tile.planes is Some,
        candidate_of(tile) matches Some(c) ==> {
            &&& c.identity == tile.identity@
            &&& c.tile == tile.tile
            &&& c.modes == tile.connector.modes@
            &&& c.plane_fourccs.contains(code) <==> exists|p: int, f: int|
                0 <= p < tile.planes->0@.len() && 0 <= f < tile.planes->0@[p]@.len() && (
                #[trigger] tile.planes->0@[p]@[f]).code == code
        },
{
    if let Some(planes) = tile.planes {
        lemma_plane_codes(planes@, planes@.len() as int, code);
    }
}

proof fn lemma_with_codes(codes: Seq<u32>, formats: Seq<Format>, n: int, code: u32)
    requires
        0 <= n <= formats.len(),
    ensures
        with_codes(codes, formats, n).contains(code) <==> codes.contains(code) || exists|f: int|
            0 <= f < n && (#[trigger] formats[f]).code == code,
    decreases n,
{
    if n > 0 {
        lemma_with_codes(codes, formats, n - 1, code);
        let before = with_codes(codes, formats, n - 1);
        let after = with_codes(codes, formats, n);
        if after.contains(code) {
            let k = choose|k: int| 0 <= k < after.len() && after[k] == code;
            if k < before.len() {
                assert(before[k] == code);
                assert(before.contains(code));
            } else {
                assert(formats[n - 1].code == code);
            }
        }
        if before.contains(code) {
            let k = choose|k: int| 0 <= k < before.len() && before[k] == code;
            assert(after[k] == code);
        }
        if formats[n - 1].code == code && !before.contains(code) {
            assert(after[before.len() as int] == code);
        }
    }
}

proof fn lemma_plane_codes(planes: Seq<Vec<Format>>, n: int, code: u32)
    requires
        0 <= n <= planes.len(),
    ensures
        plane_codes(planes, n).contains(code) <==> exists|p: int, f: int|
            0 <= p < n && 0 <= f < planes[p]@.len() && (#[trigger] planes[p]@[f]).code == code,
    decreases n,
{
    if n > 0 {
        lemma_plane_codes(planes, n - 1, code);
        let formats = planes[n - 1]@;
        lemma_with_codes(plane_codes(planes, n - 1), formats, formats.len() as int, code);
        if exists|f: int| 0 <= f < formats.len() && (#[trigger] formats[f]).code == code {
            let f = choose|f: int| 0 <= f < formats.len() && (#[trigger] formats[f]).code == code;
            assert(planes[n - 1]@[f].code == code);
        }
        if exists|p: int, f: int|
            0 <= p < n && 0 <= f < planes[p]@.len() && (#[trigger] planes[p]@[f]).code == code {
            let (p, f) = choose|p: int, f: int|
                0 <= p < n && 0 <= f < planes[p]@.len() && (#[trigger] planes[p]@[f]).code == code;
            if p == n - 1 {
                assert(formats[f].code == code);
            }
        }
    }
}

/// Of the modes that both tiles can run, the one that the first tile lists first is taken.
pub proof fn law_the_first_common_mode_is_taken(
    a: CandidateView,
    b: CandidateView,
    require_topology: bool,
    i: int,
    j: int,
)
    requires
        tile_pair(a, b, require_topology) is Ok,
        0 <= i < a.modes.len(),
        0 <= j < b.modes.len(),
        a.modes[i].flags & 0x10 == 0,
        a.tile matches Some(t) ==> a.modes[i].hdisplay == t.tile_w && a.modes[i].vdisplay
            == t.tile_h,
        b.tile matches Some(t) ==> a.modes[i].hdisplay == t.tile_w && a.modes[i].vdisplay
            == t.tile_h,
        modes::fingerprint(a.modes[i]) == modes::fingerprint(b.modes[j]),
    ensures
        exists|k: int|
            0 <= k <= i && #[trigger] a.modes[k] == (tile_pair(
                a,
                b,
                require_topology,
            )->Ok_0).tile_mode,
{
    let size = topology_size(a.tile, b.tile);
    modes::law_timing_identity_is_exact(a.modes[i], b.modes[j]);
    assert(tile_mode_fits(b.modes[j], size));
    assert(is_common(a.modes[i], b.modes, size));
    let head = a.modes.take(i + 1);
    assert(head[i] == a.modes[i]);
    lemma_first_common(head, b.modes, size);
    lemma_first_common_stays(a.modes, b.modes, size, i + 1);
    let m = first_common(head, b.modes, size)->0;
    let k = choose|k: int| 0 <= k < head.len() && head[k] == m;
    assert(a.modes[k] == m);
}

/// A pair of tiles with planes is either planned or refused with a reason, and the reason is the one
/// that the validation of the two gives; a tile without planes gives neither.
pub proof fn law_pairs_are_planned_or_refused(
    a: ConnectedTile,
    b: ConnectedTile,
    require_topology: bool,
    disable_monitor_names: bool,
)
    ensures
        a.planes is Some && b.planes is Some ==> (pair_plan(
            a,
            b,
            require_topology,
            disable_monitor_names,
        ) is Some <==> pair_rejection(a, b, require_topology) is None),
        a.planes is None || b.planes is None ==> pair_plan(
            a,
            b,
            require_topology,
            disable_monitor_names,
        ) is None && pair_rejection(a, b, require_topology) is None,
        pair_rejection(a, b, require_topology) matches Some(reason) ==> tile_pair(
            candidate_of(a)->0,
            candidate_of(b)->0,
            require_topology,
        ) == Err::<ValidatedPair, PairRejection>(reason),
{
}

} // verus!
