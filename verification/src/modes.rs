//! Display modes: timing identity, refresh rate and candidate filtering.

use vstd::prelude::*;


verus! {

/// Flag bit of an interlaced mode.
pub const MODE_FLAG_INTERLACE: u32 = 0x10;

/// Flag bit of a double-scanned mode.
pub const MODE_FLAG_DBLSCAN: u32 = 0x20;

/// Type bit of a mode that the sink prefers.
pub const MODE_TYPE_PREFERRED: u32 = 0x08;

/// The timings of one display mode, as the kernel reports them.
#[derive(Debug, Clone, Copy, PartialEq, Eq)]
pub struct DrmMode {
    /// Pixel clock in kHz.
    pub clock: u32,
    pub hdisplay: u16,
    pub hsync_start: u16,
    pub hsync_end: u16,
    pub htotal: u16,
    pub hskew: u16,
    pub vdisplay: u16,
    pub vsync_start: u16,
    pub vsync_end: u16,
    pub vtotal: u16,
    pub vscan: u16,
    pub vrefresh: u32,
    pub flags: u32,
    pub mode_type: u32,
    pub name: [u8; 32],
}

impl DrmMode {
    /// A mode scans at least one pixel and one line per frame.
    pub open spec fn wf(self) -> bool {
        self.htotal != 0 && self.vtotal != 0
    }

    pub open spec fn spec_size(self) -> (u16, u16) {
        (self.hdisplay, self.vdisplay)
    }

    pub open spec fn interlaced(self) -> bool {
        self.flags & MODE_FLAG_INTERLACE != 0
    }

    pub open spec fn double_scanned(self) -> bool {
        self.flags & MODE_FLAG_DBLSCAN != 0
    }

    pub open spec fn preferred(self) -> bool {
        self.mode_type & MODE_TYPE_PREFERRED != 0
    }

    /// Visible area in pixels.
    pub open spec fn area(self) -> int {
        self.hdisplay * self.vdisplay
    }

    /// Visible size.
    pub fn size(&self) -> (size: (u16, u16))
        ensures
            size == self.spec_size(),
    {
        (self.hdisplay, self.vdisplay)
    }

    pub fn is_interlaced(&self) -> (yes: bool)
        ensures
            yes == self.interlaced(),
    {
        self.flags & MODE_FLAG_INTERLACE != 0
    }

    pub fn is_preferred(&self) -> (yes: bool)
        ensures
            yes == self.preferred(),
    {
        self.mode_type & MODE_TYPE_PREFERRED != 0
    }
}

/// Byte-for-byte timing identity of a mode, excluding name and type.
///
/// Two tiles may only be stitched when they run byte-identical timings, preventing systematic
/// drift while both halves scan out the same submitted frame.
#[derive(Debug, Clone, Copy, PartialEq, Eq, Structural)]
pub struct TimingFingerprint {
    pub clock: u32,
    pub hdisplay: u16,
    pub hsync_start: u16,
    pub hsync_end: u16,
    pub htotal: u16,
    pub vdisplay: u16,
    pub vsync_start: u16,
    pub vsync_end: u16,
    pub vtotal: u16,
    pub hskew: u16,
    pub vscan: u16,
    pub vrefresh: u32,
    pub flags: u32,
}

/// The timing identity of a mode.
pub open spec fn fingerprint(mode: DrmMode) -> TimingFingerprint {
    TimingFingerprint {
        clock: mode.clock,
        hdisplay: mode.hdisplay,
        hsync_start: mode.hsync_start,
        hsync_end: mode.hsync_end,
        htotal: mode.htotal,
        vdisplay: mode.vdisplay,
        vsync_start: mode.vsync_start,
        vsync_end: mode.vsync_end,
        vtotal: mode.vtotal,
        hskew: mode.hskew,
        vscan: mode.vscan,
        vrefresh: mode.vrefresh,
        flags: mode.flags,
    }
}

impl From<DrmMode> for TimingFingerprint {
    fn from(mode: DrmMode) -> (identity: Self) {
        TimingFingerprint {
            clock: mode.clock,
            hdisplay: mode.hdisplay,
            hsync_start: mode.hsync_start,
            hsync_end: mode.hsync_end,
            htotal: mode.htotal,
            vdisplay: mode.vdisplay,
            vsync_start: mode.vsync_start,
            vsync_end: mode.vsync_end,
            vtotal: mode.vtotal,
            hskew: mode.hskew,
            vscan: mode.vscan,
            vrefresh: mode.vrefresh,
            flags: mode.flags,
        }
    }
}

impl vstd::std_specs::convert::FromSpecImpl<DrmMode> for TimingFingerprint {
    open spec fn obeys_from_spec() -> bool {
        true
    }

    open spec fn from_spec(mode: DrmMode) -> Self {
        fingerprint(mode)
    }
}

/// Two modes that differ only in name and type have the same timing identity.
pub proof fn law_fingerprint_ignores_name_and_type(mode: DrmMode, name: [u8; 32], mode_type: u32)
    ensures
        fingerprint(DrmMode { name, mode_type, ..mode }) == fingerprint(mode),
{
}

/// Two modes have the same timing identity exactly when every timing that reaches the display is
/// the same: the pixel clock, both visible sizes, the start and end of both sync pulses, both
/// totals, the skew, the scan count, the nominal refresh rate and the flags.
pub proof fn law_timing_identity_is_exact(a: DrmMode, b: DrmMode)
    ensures
        fingerprint(a) == fingerprint(b) <==> {
            &&& a.clock == b.clock
            &&& a.hdisplay == b.hdisplay
            &&& a.hsync_start == b.hsync_start
            &&& a.hsync_end == b.hsync_end
            &&& a.htotal == b.htotal
            &&& a.vdisplay == b.vdisplay
            &&& a.vsync_start == b.vsync_start
            &&& a.vsync_end == b.vsync_end
            &&& a.vtotal == b.vtotal
            &&& a.hskew == b.hskew
            &&& a.vscan == b.vscan
            &&& a.vrefresh == b.vrefresh
            &&& a.flags == b.flags
        },
{
}

// ---------------------------------------------------------------------------------------------
// Refresh rate
// ---------------------------------------------------------------------------------------------

/// Frames per second in mHz before it is limited to a signed 32-bit value.
pub open spec fn raw_refresh(mode: DrmMode) -> int {
    let frames = (mode.clock * 1_000_000 / (mode.htotal as int) + mode.vtotal as int / 2) / (
    mode.vtotal as int);
    let fields = if mode.interlaced() {
        frames * 2
    } else {
        frames
    };
    let scans = if mode.double_scanned() {
        fields / 2
    } else {
        fields
    };
    if mode.vscan > 1 {
        scans / (mode.vscan as int)
    } else {
        scans
    }
}

/// The refresh rate of a mode in mHz as the low 32 bits of the exact one, read as a signed number.
pub open spec fn signed_refresh(mode: DrmMode) -> int {
    let low = raw_refresh(mode) % 0x1_0000_0000;
    if low < 0x8000_0000 {
        low
    } else {
        low - 0x1_0000_0000
    }
}

/// The refresh rate of a mode in mHz; zero where it is negative as a signed 32-bit value.
pub open spec fn refresh_of(mode: DrmMode) -> u32 {
    if signed_refresh(mode) >= 0 {
        signed_refresh(mode) as u32
    } else {
        0
    }
}

/// The refresh rate that a mode advertises, in mHz.
pub fn advertised_refresh(mode: &DrmMode) -> (millihz: i32)
    requires
        mode.wf(),
    ensures
        millihz == signed_refresh(*mode),
{
    let clock: u64 = mode.clock as u64 * 1_000_000;
    let htotal: u64 = mode.htotal as u64;
    let vtotal: u64 = mode.vtotal as u64;
    let lines: u64 = clock / htotal;
    assert(lines <= clock) by (nonlinear_arith)
        requires
            lines == clock / htotal,
            htotal >= 1,
    ;
    let rounded: u64 = lines + vtotal / 2;
    let frames: u64 = rounded / vtotal;
    assert(frames <= rounded) by (nonlinear_arith)
        requires
            frames == rounded / vtotal,
            vtotal >= 1,
    ;
    let fields: u64 = if mode.flags & MODE_FLAG_INTERLACE != 0 {
        frames * 2
    } else {
        frames
    };
    let scans: u64 = if mode.flags & MODE_FLAG_DBLSCAN != 0 {
        fields / 2
    } else {
        fields
    };
    let refresh: u64 = if mode.vscan > 1 {
        scans / mode.vscan as u64
    } else {
        scans
    };
    assert(refresh == raw_refresh(*mode));
    let low: u64 = refresh % 0x1_0000_0000;
    if low < 0x8000_0000 {
        low as i32
    } else {
        (low as i64 - 0x1_0000_0000) as i32
    }
}

/// The refresh rate of a mode in mHz.
pub fn mode_refresh(mode: &DrmMode) -> (millihz: u32)
    requires
        mode.wf(),
    ensures
        millihz == refresh_of(*mode),
{
    let refresh: i32 = advertised_refresh(mode);
    if refresh >= 0 {
        refresh as u32
    } else {
        0
    }
}

// ---------------------------------------------------------------------------------------------
// Candidates
// ---------------------------------------------------------------------------------------------

/// A mode that the configuration asks for.
#[derive(Debug, Clone, Copy, PartialEq, Eq, Structural)]
pub struct ConfiguredMode {
    /// A custom mode is not one that a connector advertises.
    pub custom: bool,
    pub width: u16,
    pub height: u16,
    /// Wanted rate, rounded to mHz.
    pub refresh_millihz: Option<u32>,
}

/// Whether a mode is progressive and, where one is configured, the configured one.
pub open spec fn usable(mode: DrmMode, configured: Option<ConfiguredMode>) -> bool {
    &&& !mode.interlaced()
    &&& match configured {
        None => true,
        Some(c) => {
            &&& !c.custom
            &&& mode.spec_size() == (c.width, c.height)
            &&& match c.refresh_millihz {
                None => true,
                Some(rate) => refresh_of(mode) == rate,
            }
        },
    }
}

/// Whether it takes the refresh rate of a mode to say if the mode is usable.
pub open spec fn rate_decides(mode: DrmMode, configured: Option<ConfiguredMode>) -> bool {
    &&& !mode.interlaced()
    &&& configured matches Some(c) && !c.custom && mode.spec_size() == (c.width, c.height)
        && c.refresh_millihz is Some
}

/// Whether it takes the refresh rate of a mode to say if the mode is usable.
pub fn needs_rate(mode: &DrmMode, configured: Option<ConfiguredMode>) -> (needed: bool)
    ensures
        needed == rate_decides(*mode, configured),
{
    !mode.is_interlaced() && match configured {
        None => false,
        Some(c) => !c.custom && mode.hdisplay == c.width && mode.vdisplay == c.height
            && c.refresh_millihz.is_some(),
    }
}

/// The last of the modes with the largest area.
pub open spec fn largest(modes: Seq<DrmMode>) -> Option<DrmMode>
    decreases modes.len(),
{
    if modes.len() == 0 {
        None
    } else {
        match largest(modes.drop_last()) {
            Some(m) if m.area() > modes.last().area() => Some(m),
            _ => Some(modes.last()),
        }
    }
}

/// The preferred modes among `modes`.
pub open spec fn preferred_modes(modes: Seq<DrmMode>) -> Seq<DrmMode> {
    modes.filter(|m: DrmMode| m.preferred())
}

/// The size of the largest preferred mode, or of the largest mode where none is preferred.
pub open spec fn native_size(modes: Seq<DrmMode>) -> Option<(u16, u16)> {
    match largest(preferred_modes(modes)) {
        Some(m) => Some(m.spec_size()),
        None => match largest(modes) {
            Some(m) => Some(m.spec_size()),
            None => None,
        },
    }
}

/// The modes of the native size.
pub open spec fn native_modes(modes: Seq<DrmMode>) -> Seq<DrmMode> {
    match native_size(modes) {
        Some(size) => modes.filter(|m: DrmMode| m.spec_size() == size),
        None => modes,
    }
}

/// The modes a member may use: the usable ones, limited to the native size where no mode is
/// configured.
pub open spec fn member_modes(modes: Seq<DrmMode>, configured: Option<ConfiguredMode>) -> Seq<
    DrmMode,
> {
    let all = modes.filter(|m: DrmMode| usable(m, configured));
    match configured {
        None => native_modes(all),
        Some(_) => all,
    }
}

proof fn lemma_take_next(modes: Seq<DrmMode>, i: int)
    requires
        0 <= i < modes.len(),
    ensures
        modes.take(i + 1).drop_last() == modes.take(i),
        modes.take(i + 1).last() == modes[i],
{
    assert(modes.take(i + 1).drop_last() =~= modes.take(i));
}

/// The size of the largest preferred mode, or of the largest mode where none is preferred.
pub fn preferred_mode_size(modes: &[DrmMode]) -> (size: Option<(u16, u16)>)
    ensures
        size == native_size(modes@),
{
    let mut best_preferred: Option<DrmMode> = None;
    let mut best: Option<DrmMode> = None;
    let ghost pred = |m: DrmMode| m.preferred();
    for i in 0..modes.len()
        invariant
            pred == (|m: DrmMode| m.preferred()),
            best_preferred == largest(modes@.take(i as int).filter(pred)),
            best == largest(modes@.take(i as int)),
    {
        let mode = modes[i];
        let area: u32 = area_of(&mode);
        proof {
            lemma_take_next(modes@, i as int);
            reveal(Seq::filter);
            let f = modes@.take(i as int).filter(pred);
            assert(f.push(mode).drop_last() =~= f);
        }
        if mode.is_preferred() {
            best_preferred = match best_preferred {
                Some(m) => if area_of(&m) > area {
                    Some(m)
                } else {
                    Some(mode)
                },
                None => Some(mode),
            };
        }
        best = match best {
            Some(m) => if area_of(&m) > area {
                Some(m)
            } else {
                Some(mode)
            },
            None => Some(mode),
        };
    }
    assert(modes@.take(modes@.len() as int) =~= modes@);
    match best_preferred {
        Some(m) => Some(m.size()),
        None => match best {
            Some(m) => Some(m.size()),
            None => None,
        },
    }
}

fn area_of(mode: &DrmMode) -> (area: u32)
    ensures
        area == mode.area(),
{
    assert(mode.hdisplay * mode.vdisplay <= 0xffff * 0xffff) by (nonlinear_arith)
        requires
            mode.hdisplay <= 0xffff,
            mode.vdisplay <= 0xffff,
    ;
    mode.hdisplay as u32 * mode.vdisplay as u32
}

/// Drops every mode that does not have the native size.
pub fn retain_preferred_resolution(modes: &mut Vec<DrmMode>)
    ensures
        final(modes)@ == native_modes(old(modes)@),
{
    if let Some(size) = preferred_mode_size(modes.as_slice()) {
        let mut kept: Vec<DrmMode> = Vec::new();
        let ghost pred = |m: DrmMode| m.spec_size() == size;
        let ghost all = modes@;
        for i in 0..modes.len()
            invariant
                all == modes@,
                pred == (|m: DrmMode| m.spec_size() == size),
                kept@ == all.take(i as int).filter(pred),
        {
            proof {
                lemma_take_next(all, i as int);
                reveal(Seq::filter);
            }
            if modes[i].hdisplay == size.0 && modes[i].vdisplay == size.1 {
                kept.push(modes[i]);
            }
        }
        assert(all.take(all.len() as int) =~= all);
        *modes = kept;
    }
}

/// The modes a member may use, in connector order.
///
/// Refresh negotiation must not change a member's resolution: without a configured mode only the
/// native size remains, so that an exact lower-resolution refresh cannot beat a near-identical
/// native one.
pub fn candidate_modes(modes: &[DrmMode], configured: Option<ConfiguredMode>) -> (candidates: Vec<
    DrmMode,
>)
    requires
        forall|i: int|
            0 <= i < modes@.len() && rate_decides(#[trigger] modes@[i], configured)
                ==> modes@[i].wf(),
    ensures
        candidates@ == member_modes(modes@, configured),
{
    let mut kept: Vec<DrmMode> = Vec::new();
    let ghost pred = |m: DrmMode| usable(m, configured);
    for i in 0..modes.len()
        invariant
            forall|k: int|
                0 <= k < modes@.len() && rate_decides(#[trigger] modes@[k], configured)
                    ==> modes@[k].wf(),
            pred == (|m: DrmMode| usable(m, configured)),
            kept@ == modes@.take(i as int).filter(pred),
    {
        let mode = modes[i];
        assert(modes@[i as int] == mode);
        proof {
            lemma_take_next(modes@, i as int);
            reveal(Seq::filter);
        }
        let wanted = !mode.is_interlaced() && match configured {
            None => true,
            Some(c) => !c.custom && mode.hdisplay == c.width && mode.vdisplay == c.height
                && match c.refresh_millihz {
                None => true,
                Some(rate) => mode_refresh(&mode) == rate,
            },
        };
        if wanted {
            kept.push(mode);
        }
    }
    assert(modes@.take(modes@.len() as int) =~= modes@);
    if configured.is_none() {
        retain_preferred_resolution(&mut kept);
    }
    kept
}

/// Filtering keeps exactly the items that satisfy the predicate.
pub proof fn lemma_filter_members<A>(items: Seq<A>, pred: spec_fn(A) -> bool)
    ensures
        forall|m: A| #[trigger] items.filter(pred).contains(m) <==> items.contains(m) && pred(m),
    decreases items.len(),
{
    reveal(Seq::filter);
    if items.len() > 0 {
        let rest = items.drop_last();
        lemma_filter_members(rest, pred);
        assert forall|m: A| #[trigger] items.filter(pred).contains(m) <==> items.contains(m)
            && pred(m) by {
            let out = items.filter(pred);
            let sub = rest.filter(pred);
            assert(sub.contains(m) <==> rest.contains(m) && pred(m));
            if out.contains(m) {
                let k = choose|k: int| 0 <= k < out.len() && out[k] == m;
                if k < sub.len() {
                    assert(sub[k] == m);
                    assert(sub.contains(m));
                    let j = choose|j: int| 0 <= j < rest.len() && rest[j] == m;
                    assert(items[j] == m);
                } else {
                    assert(items[items.len() - 1] == m);
                }
            }
            if items.contains(m) && pred(m) {
                let j = choose|j: int| 0 <= j < items.len() && items[j] == m;
                if j < rest.len() {
                    assert(rest[j] == m);
                    let k = choose|k: int| 0 <= k < sub.len() && sub[k] == m;
                    assert(out[k] == m);
                } else {
                    assert(out[out.len() - 1] == m);
                }
            }
        }
    }
}

/// Every mode that a member may use is a progressive mode of its connector; where one is
/// configured it has the configured size.
pub proof fn law_member_modes_come_from_the_connector(
    modes: Seq<DrmMode>,
    configured: Option<ConfiguredMode>,
)
    ensures
        forall|m: DrmMode| #[trigger]
            member_modes(modes, configured).contains(m) ==> modes.contains(m) && usable(
                m,
                configured,
            ),
{
    let all = modes.filter(|m: DrmMode| usable(m, configured));
    lemma_filter_members(modes, |m: DrmMode| usable(m, configured));
    if configured is None {
        match native_size(all) {
            Some(size) => {
                lemma_filter_members(all, |m: DrmMode| m.spec_size() == size);
            },
            None => {},
        }
    }
}

proof fn lemma_largest(modes: Seq<DrmMode>)
    ensures
        match largest(modes) {
            Some(m) => modes.contains(m) && forall|k: int|
                0 <= k < modes.len() ==> (#[trigger] modes[k]).area() <= m.area(),
            None => modes.len() == 0,
        },
    decreases modes.len(),
{
    if modes.len() > 0 {
        let rest = modes.drop_last();
        lemma_largest(rest);
        let m = largest(modes)->0;
        if m == modes.last() {
            assert(modes[modes.len() - 1] == m);
        } else {
            let j = choose|j: int| 0 <= j < rest.len() && rest[j] == m;
            assert(modes[j] == m);
        }
        assert(modes.contains(m)) by {
            if largest(rest) == Some(m) {
                let j = choose|j: int| 0 <= j < rest.len() && rest[j] == m;
                assert(modes[j] == m);
            }
        }
        assert forall|k: int| 0 <= k < modes.len() implies (#[trigger] modes[k]).area()
            <= m.area() by {
            if k < rest.len() {
                assert(rest[k] == modes[k]);
            }
        }
    }
}

/// Without a configured mode every mode that a member may use has one and the same size, that of a
/// preferred progressive mode wherever the connector has one.
pub proof fn law_refresh_negotiation_keeps_the_native_resolution(modes: Seq<DrmMode>)
    ensures
        forall|a: DrmMode, b: DrmMode| #[trigger]
            member_modes(modes, None).contains(a) && #[trigger] member_modes(modes, None).contains(
                b,
            ) ==> a.spec_size() == b.spec_size(),
        forall|a: DrmMode, p: DrmMode| #[trigger]
            member_modes(modes, None).contains(a) && #[trigger] modes.contains(p)
                && !p.interlaced() && p.preferred() ==> exists|q: DrmMode| #[trigger]
            modes.contains(q) && !q.interlaced() && q.preferred() && q.spec_size() == a.spec_size(),
{
    let none: Option<ConfiguredMode> = None;
    let all = modes.filter(|m: DrmMode| usable(m, none));
    lemma_filter_members(modes, |m: DrmMode| usable(m, none));
    lemma_filter_members(all, |m: DrmMode| m.preferred());
    let wanted = preferred_modes(all);
    lemma_largest(wanted);
    match native_size(all) {
        Some(size) => {
            lemma_filter_members(all, |m: DrmMode| m.spec_size() == size);
        },
        None => {
            lemma_largest(all);
        },
    }
    assert forall|a: DrmMode, p: DrmMode| #[trigger]
        member_modes(modes, none).contains(a) && #[trigger] modes.contains(p) && !p.interlaced()
            && p.preferred() implies exists|q: DrmMode| #[trigger]
        modes.contains(q) && !q.interlaced() && q.preferred() && q.spec_size() == a.spec_size() by {
        assert(all.contains(p));
        assert(wanted.contains(p));
        assert(largest(wanted) is Some);
        let q = largest(wanted)->0;
        assert(wanted.contains(q));
        assert(all.contains(q));
        assert(modes.contains(q));
    }
}

/// A mode is interlaced by the flag bit of value 16, double-scanned by that of value 32, and
/// preferred by the type bit of value 8.
pub proof fn law_mode_flags_are_the_kernel_bits(mode: DrmMode)
    ensures
        mode.interlaced() <==> mode.flags & 0x10 != 0,
        mode.double_scanned() <==> mode.flags & 0x20 != 0,
        mode.preferred() <==> mode.mode_type & 0x08 != 0,
        mode.spec_size() == (mode.hdisplay, mode.vdisplay),
        mode.area() == mode.hdisplay * mode.vdisplay,
{
}

/// Lines are counted by dividing the pixel clock, in thousandths of a hertz, by the pixels of a line;
/// a progressive mode that scans every line once refreshes as often as its lines make up frames,
/// rounded to the nearest.
pub proof fn law_refresh_counts_frames_of_lines(mode: DrmMode)
    requires
        mode.htotal != 0,
        mode.vtotal != 0,
        mode.flags & 0x10 == 0,
        mode.flags & 0x20 == 0,
        mode.vscan <= 1,
    ensures
        ({
            let lines = mode.clock * 1_000_000 / (mode.htotal as int);
            let rate = raw_refresh(mode);
            &&& rate * mode.vtotal <= lines + mode.vtotal as int / 2
            &&& lines + mode.vtotal as int / 2 < (rate + 1) * mode.vtotal
        }),
{
    let lines = mode.clock * 1_000_000 / (mode.htotal as int);
    let total = mode.vtotal as int;
    let rounded = lines + total / 2;
    let rate = raw_refresh(mode);
    assert(rate == rounded / total);
    assert(rate * total <= rounded < (rate + 1) * total) by (nonlinear_arith)
        requires
            rate == rounded / total,
            total > 0,
    ;
}

/// An interlaced mode shows a field twice as often as a progressive mode with its timings shows a
/// frame, a double-scanned one half as often, and one that scans each line several times so many
/// times less often.
pub proof fn law_scanning_scales_the_refresh_rate(plain: DrmMode, flags: u32, vscan: u16)
    requires
        plain.htotal != 0,
        plain.vtotal != 0,
        plain.flags & 0x10 == 0,
        plain.flags & 0x20 == 0,
        plain.vscan <= 1,
    ensures
        flags & 0x10 != 0 && flags & 0x20 == 0 ==> raw_refresh((DrmMode { flags, ..plain })) == 2
            * raw_refresh(plain),
        flags & 0x10 == 0 && flags & 0x20 != 0 ==> raw_refresh((DrmMode { flags, ..plain }))
            == raw_refresh(plain) / 2,
        flags & 0x10 != 0 && flags & 0x20 != 0 ==> raw_refresh((DrmMode { flags, ..plain }))
            == raw_refresh(plain),
        vscan > 1 ==> raw_refresh((DrmMode { vscan, ..plain })) == raw_refresh(plain) / (
        vscan as int),
        vscan <= 1 ==> raw_refresh((DrmMode { vscan, ..plain })) == raw_refresh(plain),
{
}

/// A refresh rate below two to the thirty-first thousandths of a hertz is taken as it is; one that
/// is negative as a signed number counts as zero.
pub proof fn law_ordinary_refresh_rates_are_kept(mode: DrmMode)
    ensures
        0 <= raw_refresh(mode) < 0x8000_0000 ==> signed_refresh(mode) == raw_refresh(mode)
            && refresh_of(mode) == raw_refresh(mode),
        0x8000_0000 <= raw_refresh(mode) < 0x1_0000_0000 ==> signed_refresh(mode) == raw_refresh(
            mode,
        ) - 0x1_0000_0000 && refresh_of(mode) == 0,
{
}

/// With a mode configured, a member may use exactly the progressive modes of its connector that have
/// the configured size and, where one is configured, the configured rate; a custom mode is none of
/// them.
pub proof fn law_configured_modes_are_matched_exactly(
    modes: Seq<DrmMode>,
    configured: ConfiguredMode,
    mode: DrmMode,
)
    ensures
        member_modes(modes, Some(configured)).contains(mode) <==> {
            &&& modes.contains(mode)
            &&& mode.flags & 0x10 == 0
            &&& !configured.custom
            &&& mode.hdisplay == configured.width
            &&& mode.vdisplay == configured.height
            &&& configured.refresh_millihz matches Some(rate) ==> refresh_of(mode) == rate
        },
{
    lemma_filter_members(modes, |m: DrmMode| usable(m, Some(configured)));
}

/// Without one, a member may use exactly the progressive modes of its connector that have the native
/// size. That is the size of a preferred progressive mode with the most pixels or, where none is
/// preferred, of a progressive mode with the most pixels.
pub proof fn law_unconfigured_members_keep_the_native_size(
    modes: Seq<DrmMode>,
    used: DrmMode,
    mode: DrmMode,
)
    requires
        member_modes(modes, None).contains(used),
    ensures
        member_modes(modes, None).contains(mode) <==> modes.contains(mode) && mode.flags & 0x10 == 0
            && mode.hdisplay == used.hdisplay && mode.vdisplay == used.vdisplay,
        modes.contains(mode) && mode.flags & 0x10 == 0 && mode.mode_type & 0x08 != 0
            ==> mode.hdisplay * mode.vdisplay <= used.hdisplay * used.vdisplay,
        (forall|m: DrmMode| #[trigger]
            modes.contains(m) && m.flags & 0x10 == 0 ==> m.mode_type & 0x08 == 0)
            && modes.contains(mode) && mode.flags & 0x10 == 0 ==> mode.hdisplay * mode.vdisplay
            <= used.hdisplay * used.vdisplay,
{
    let none: Option<ConfiguredMode> = None;
    let all = modes.filter(|m: DrmMode| usable(m, none));
    lemma_filter_members(modes, |m: DrmMode| usable(m, none));
    lemma_filter_members(all, |m: DrmMode| m.preferred());
    let wanted = preferred_modes(all);
    lemma_largest(wanted);
    lemma_largest(all);
    match native_size(all) {
        Some(size) => {
            lemma_filter_members(all, |m: DrmMode| m.spec_size() == size);
            assert(used.spec_size() == size);
        },
        None => {},
    }
    if modes.contains(mode) && !mode.interlaced() {
        assert(all.contains(mode));
        if mode.preferred() {
            assert(wanted.contains(mode));
            let k = choose|k: int| 0 <= k < wanted.len() && wanted[k] == mode;
            assert(wanted[k].area() <= (largest(wanted)->0).area());
        }
        let k = choose|k: int| 0 <= k < all.len() && all[k] == mode;
        assert(all[k].area() <= (largest(all)->0).area());
        if wanted.len() > 0 {
            let p = wanted[0];
            assert(wanted.contains(p));
            assert(all.contains(p));
            assert(modes.contains(p));
        }
    }
}

/// Of the modes with the most pixels the last one counts as the largest.
pub proof fn law_the_last_of_the_largest_modes_counts(modes: Seq<DrmMode>)
    ensures
        modes.len() == 0 <==> largest(modes) is None,
        largest(modes) matches Some(m) ==> exists|i: int|
            {
                &&& 0 <= i < modes.len()
                &&& #[trigger] modes[i] == m
                &&& forall|k: int|
                    0 <= k <= i ==> (#[trigger] modes[k]).hdisplay * modes[k].vdisplay <= m.hdisplay
                        * m.vdisplay
                &&& forall|k: int|
                    i < k < modes.len() ==> (#[trigger] modes[k]).hdisplay * modes[k].vdisplay
                        < m.hdisplay * m.vdisplay
            },
    decreases modes.len(),
{
    if modes.len() > 0 {
        let rest = modes.drop_last();
        let last = modes.len() - 1;
        law_the_last_of_the_largest_modes_counts(rest);
        lemma_largest(modes);
        assert forall|k: int| 0 <= k < rest.len() implies #[trigger] modes[k] == rest[k] by {}
        match largest(rest) {
            Some(m) if m.area() > modes.last().area() => {
                let i = choose|i: int|
                    {
                        &&& 0 <= i < rest.len()
                        &&& #[trigger] rest[i] == m
                        &&& forall|k: int|
                            0 <= k <= i ==> (#[trigger] rest[k]).hdisplay * rest[k].vdisplay
                                <= m.hdisplay * m.vdisplay
                        &&& forall|k: int|
                            i < k < rest.len() ==> (#[trigger] rest[k]).hdisplay * rest[k].vdisplay
                                < m.hdisplay * m.vdisplay
                    };
                assert(modes[i] == m);
                assert forall|k: int| i < k < modes.len() implies (#[trigger] modes[k]).hdisplay
                    * modes[k].vdisplay < m.hdisplay * m.vdisplay by {
                    if k < last {
                        assert(modes[k] == rest[k]);
                    }
                }
                assert forall|k: int| 0 <= k <= i implies (#[trigger] modes[k]).hdisplay
                    * modes[k].vdisplay <= m.hdisplay * m.vdisplay by {
                    assert(modes[k] == rest[k]);
                }
            },
            _ => {
                let m = modes[last];
                assert(largest(modes) == Some(m));
                assert forall|k: int| 0 <= k <= last implies (#[trigger] modes[k]).hdisplay
                    * modes[k].vdisplay <= m.hdisplay * m.vdisplay by {
                    assert(modes[k].area() <= m.area());
                }
            },
        }
    }
}

} // verus!
