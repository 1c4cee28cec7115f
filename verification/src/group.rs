//! A connected tiled group: one logical output scanned out through two CRTCs.

use vstd::prelude::*;

use drm::control::atomic::AtomicModeReq;

use crate::commit::TiledCommitState;
use crate::commit::TiledCommitTracker;
use crate::crtc::CrtcSubmissionId;
use crate::flip::DrmEventMetadata;
use crate::flip::TiledFlipState;
use crate::formats::Format;
use crate::gamma;
use crate::gamma::GammaProps;
use crate::modes;
use crate::modes::DrmMode;
use crate::modes::TimingFingerprint;
use crate::names::same_name;
use crate::names::NameView;
use crate::names::OutputName;
use crate::pair::TiledGroupPlan;
use crate::pair::TiledMemberPlan;
use crate::pair::WlMode;
use crate::props;
use crate::props::same_member_props;
use crate::props::MemberProps;
use crate::props::MemberPropsView;
use crate::props::MissingProperty;
use crate::props::PropertyInfo;
use crate::request;
use crate::request::request_of;
use crate::request::Setting;

verus! {

/// Identity of a logical output, kept across reconnects.
#[derive(Debug, Clone, Copy, PartialEq, Eq, Hash, Structural)]
pub struct OutputId(u64);

impl OutputId {
    /// The identity as a number.
    pub closed spec fn number(self) -> u64 {
        self.0
    }

    /// A new identity; the counter is that of the last one.
    pub fn next(counter: &mut u64) -> (id: Self)
        requires
            *old(counter) < u64::MAX,
        ensures
            *final(counter) == *old(counter) + 1,
            id.number() == *final(counter),
    {
        *counter = *counter + 1;
        OutputId(*counter)
    }

    pub fn get(self) -> (number: u64)
        ensures
            number == self.number(),
    {
        self.0
    }
}

// ---------------------------------------------------------------------------------------------
// Members
// ---------------------------------------------------------------------------------------------

/// One physical tile of a connected tiled group.
#[derive(Debug)]
pub struct TiledMember {
    pub crtc: u32,
    pub connector: u32,
    /// Primary plane of the CRTC.
    pub plane: u32,
    /// Horizontal offset of this tile within the full image, in pixels.
    pub crtc_x: u32,
    pub tile_w: u32,
    pub tile_h: u32,
    /// Blob that holds the tile mode, once made.
    pub mode_blob: Option<u64>,
    pub props: MemberProps,
    pub gamma_props: Option<GammaProps>,
}

/// The contents of a member.
pub struct MemberView {
    pub crtc: u32,
    pub connector: u32,
    pub plane: u32,
    pub crtc_x: u32,
    pub tile_w: u32,
    pub tile_h: u32,
    pub mode_blob: Option<u64>,
    pub props: MemberPropsView,
    pub gamma_props: Option<GammaProps>,
}

impl View for TiledMember {
    type V = MemberView;

    open spec fn view(&self) -> MemberView {
        MemberView {
            crtc: self.crtc,
            connector: self.connector,
            plane: self.plane,
            crtc_x: self.crtc_x,
            tile_w: self.tile_w,
            tile_h: self.tile_h,
            mode_blob: self.mode_blob,
            props: self.props@,
            gamma_props: self.gamma_props,
        }
    }
}

impl MemberView {
    /// Whether every handle is one that the kernel may hand out.
    pub open spec fn wf(self) -> bool {
        &&& self.crtc != 0
        &&& self.connector != 0
        &&& self.plane != 0
        &&& self.props.wf()
    }

    /// The number of properties that a modeset sets.
    pub open spec fn property_count(self) -> nat {
        13 + self.props.connector_neutral.len() + self.props.crtc_neutral.len()
            + self.props.plane_neutral.len()
    }
}

/// The settings that put an object into its neutral state.
pub open spec fn neutral_settings(object: u32, neutral: Seq<(u32, u64)>) -> Seq<Setting> {
    Seq::new(
        neutral.len(),
        |i: int| Setting { object, property: neutral[i].0, value: neutral[i].1 },
    )
}

/// The value that a CRTC's neutral property is set to: an active CRTC keeps its gamma table.
pub open spec fn kept_gamma(gamma: Option<GammaProps>, handle: u32, value: u64) -> u64 {
    match gamma {
        Some(props) => if props.gamma_lut == handle {
            gamma::blob_value(props.previous_blob)
        } else {
            value
        },
        None => value,
    }
}

/// The settings that put a CRTC into its neutral state.
pub open spec fn crtc_settings(member: MemberView, active: bool) -> Seq<Setting> {
    Seq::new(
        member.props.crtc_neutral.len(),
        |i: int|
            Setting {
                object: member.crtc,
                property: member.props.crtc_neutral[i].0,
                value: if active {
                    kept_gamma(
                        member.gamma_props,
                        member.props.crtc_neutral[i].0,
                        member.props.crtc_neutral[i].1,
                    )
                } else {
                    member.props.crtc_neutral[i].1
                },
            },
    )
}

/// The settings that route a member and show its part of a framebuffer.
///
/// The source rectangle is in 16.16 fixed point and selects this tile's part of the shared
/// framebuffer; the destination is relative to the tile's own CRTC, and starts at its origin.
pub open spec fn active_routing(member: MemberView, mode_blob: u64, fb: u32) -> Seq<Setting> {
    let props = member.props;
    let plane = member.plane;
    seq![
        Setting {
            object: member.connector,
            property: props.conn_crtc_id,
            value: member.crtc as u64,
        },
        Setting { object: member.crtc, property: props.crtc_mode_id, value: mode_blob },
        Setting { object: member.crtc, property: props.crtc_active, value: 1 },
        Setting { object: plane, property: props.plane_fb_id, value: fb as u64 },
        Setting { object: plane, property: props.plane_crtc_id, value: member.crtc as u64 },
        Setting {
            object: plane,
            property: props.plane_src_x,
            value: (member.crtc_x * 0x1_0000) as u64,
        },
        Setting { object: plane, property: props.plane_src_y, value: 0 },
        Setting {
            object: plane,
            property: props.plane_src_w,
            value: (member.tile_w * 0x1_0000) as u64,
        },
        Setting {
            object: plane,
            property: props.plane_src_h,
            value: (member.tile_h * 0x1_0000) as u64,
        },
        Setting { object: plane, property: props.plane_crtc_x, value: 0 },
        Setting { object: plane, property: props.plane_crtc_y, value: 0 },
        Setting { object: plane, property: props.plane_crtc_w, value: member.tile_w as u64 },
        Setting { object: plane, property: props.plane_crtc_h, value: member.tile_h as u64 },
    ]
}

/// The settings that take a member out of use.
pub open spec fn disabled_routing(member: MemberView) -> Seq<Setting> {
    let props = member.props;
    seq![
        Setting { object: member.connector, property: props.conn_crtc_id, value: 0 },
        Setting { object: member.crtc, property: props.crtc_mode_id, value: 0 },
        Setting { object: member.crtc, property: props.crtc_active, value: 0 },
        Setting { object: member.plane, property: props.plane_fb_id, value: 0 },
        Setting { object: member.plane, property: props.plane_crtc_id, value: 0 },
    ]
}

/// The settings that put a member's objects into their neutral state.
pub open spec fn neutral_member(member: MemberView, active: bool) -> Seq<Setting> {
    neutral_settings(member.connector, member.props.connector_neutral) + crtc_settings(
        member,
        active,
    ) + neutral_settings(member.plane, member.props.plane_neutral)
}

/// All settings for one member of an active commit.
pub open spec fn active_settings(member: MemberView, mode_blob: u64, fb: u32) -> Seq<Setting> {
    active_routing(member, mode_blob, fb) + neutral_member(member, true)
}

/// All settings for one member of a disabling commit.
pub open spec fn disabled_settings(member: MemberView) -> Seq<Setting> {
    disabled_routing(member) + neutral_member(member, false)
}

impl TiledMember {
    /// Resolves a planned member from the properties of its connector, CRTC and plane.
    pub fn new(
        plan: &TiledMemberPlan,
        plane: u32,
        connector_list: &[PropertyInfo],
        crtc_list: &[PropertyInfo],
        plane_list: &[PropertyInfo],
        gamma_props: Option<GammaProps>,
    ) -> (member: Result<Self, MissingProperty>)
        ensures
            match member {
                Ok(m) => {
                    &&& props::member_props(connector_list@, crtc_list@, plane_list@) == Ok::<
                        MemberPropsView,
                        Seq<char>,
                    >(m@.props)
                    &&& m@.crtc == plan.crtc
                    &&& m@.connector == plan.connector
                    &&& m@.plane == plane
                    &&& m@.crtc_x == plan.crtc_x
                    &&& m@.tile_w == plan.tile_w
                    &&& m@.tile_h == plan.tile_h
                    &&& m@.mode_blob is None
                    &&& m@.gamma_props == gamma_props
                },
                Err(e) => props::member_props(connector_list@, crtc_list@, plane_list@) == Err::<
                    MemberPropsView,
                    Seq<char>,
                >(e.name@),
            },
    {
        match MemberProps::new(connector_list, crtc_list, plane_list) {
            Ok(props) => Ok(
                TiledMember {
                    crtc: plan.crtc,
                    connector: plan.connector,
                    plane,
                    crtc_x: plan.crtc_x,
                    tile_w: plan.tile_w,
                    tile_h: plan.tile_h,
                    mode_blob: None,
                    props,
                    gamma_props,
                },
            ),
            Err(e) => Err(e),
        }
    }

    /// Whether every handle is one that the kernel may hand out.
    pub fn is_valid(&self) -> (yes: bool)
        ensures
            yes == self@.wf(),
    {
        self.crtc != 0 && self.connector != 0 && self.plane != 0 && self.props.is_valid()
    }

    fn settings(&self) -> (count: u128)
        ensures
            count == self@.property_count(),
            count <= 4 * u64::MAX,
    {
        13 + self.props.connector_neutral.len() as u128 + self.props.crtc_neutral.len() as u128
            + self.props.plane_neutral.len() as u128
    }

    pub fn plane(&self) -> (plane: u32)
        ensures
            plane == self@.plane,
    {
        self.plane
    }

    /// The mode blob, where there is one already.
    pub fn mode_blob(&self) -> (blob: Option<u64>)
        ensures
            blob == self@.mode_blob,
    {
        self.mode_blob
    }

    /// Takes note of the mode blob that was made; one that is known already is kept.
    pub fn install_mode_blob(&mut self, blob: u64)
        ensures
            final(self)@ == (MemberView {
                mode_blob: match old(self)@.mode_blob {
                    Some(known) => Some(known),
                    None => Some(blob),
                },
                ..old(self)@
            }),
    {
        if self.mode_blob.is_none() {
            self.mode_blob = Some(blob);
        }
    }

    /// Gives up the mode blob; returns the one to destroy.
    pub fn destroy_mode_blob(&mut self) -> (destroy: Option<u64>)
        ensures
            destroy == old(self)@.mode_blob,
            final(self)@ == (MemberView { mode_blob: None, ..old(self)@ }),
    {
        let destroy = self.mode_blob;
        self.mode_blob = None;
        destroy
    }

    fn push_neutral(settings: &mut Vec<Setting>, object: u32, neutral: &Vec<(u32, u64)>)
        ensures
            final(settings)@ == old(settings)@ + neutral_settings(object, neutral@),
    {
        let ghost start = settings@;
        for i in 0..neutral.len()
            invariant
                settings@ == start + neutral_settings(object, neutral@).take(i as int),
        {
            settings.push(Setting { object, property: neutral[i].0, value: neutral[i].1 });
            assert(settings@ =~= start + neutral_settings(object, neutral@).take(i + 1));
        }
        assert(settings@ =~= start + neutral_settings(object, neutral@));
    }

    fn push_crtc_neutral(&self, settings: &mut Vec<Setting>, active: bool)
        ensures
            final(settings)@ == old(settings)@ + crtc_settings(self@, active),
    {
        let ghost start = settings@;
        let ghost all = crtc_settings(self@, active);
        let current: Option<(u32, u64)> = if active {
            match &self.gamma_props {
                Some(props) => Some(props.current_blob_property()),
                None => None,
            }
        } else {
            None
        };
        for i in 0..self.props.crtc_neutral.len()
            invariant
                all == crtc_settings(self@, active),
                current == (match self.gamma_props {
                    Some(props) => if active {
                        Some((props.gamma_lut, gamma::blob_value(props.previous_blob)))
                    } else {
                        None
                    },
                    None => None,
                }),
                settings@ == start + all.take(i as int),
        {
            let (handle, neutral) = self.props.crtc_neutral[i];
            let value: u64 = match current {
                Some((gamma_handle, gamma_blob)) => if gamma_handle == handle {
                    gamma_blob
                } else {
                    neutral
                },
                None => neutral,
            };
            settings.push(Setting { object: self.crtc, property: handle, value });
            assert(settings@ =~= start + all.take(i + 1));
        }
        assert(settings@ =~= start + all);
    }

    fn push_neutral_member(&self, settings: &mut Vec<Setting>, active: bool)
        ensures
            final(settings)@ == old(settings)@ + neutral_member(self@, active),
    {
        TiledMember::push_neutral(settings, self.connector, &self.props.connector_neutral);
        self.push_crtc_neutral(settings, active);
        TiledMember::push_neutral(settings, self.plane, &self.props.plane_neutral);
        assert(settings@ =~= old(settings)@ + neutral_member(self@, active));
    }

    fn push_active(&self, settings: &mut Vec<Setting>, mode_blob: u64, fb: u32)
        ensures
            final(settings)@ == old(settings)@ + active_settings(self@, mode_blob, fb),
    {
        let props = &self.props;
        let plane: u32 = self.plane;
        settings.push(
            Setting {
                object: self.connector,
                property: props.conn_crtc_id,
                value: self.crtc as u64,
            },
        );
        settings.push(
            Setting { object: self.crtc, property: props.crtc_mode_id, value: mode_blob },
        );
        settings.push(Setting { object: self.crtc, property: props.crtc_active, value: 1 });
        settings.push(Setting { object: plane, property: props.plane_fb_id, value: fb as u64 });
        settings.push(
            Setting { object: plane, property: props.plane_crtc_id, value: self.crtc as u64 },
        );
        settings.push(
            Setting {
                object: plane,
                property: props.plane_src_x,
                value: self.crtc_x as u64 * 0x1_0000,
            },
        );
        settings.push(Setting { object: plane, property: props.plane_src_y, value: 0 });
        settings.push(
            Setting {
                object: plane,
                property: props.plane_src_w,
                value: self.tile_w as u64 * 0x1_0000,
            },
        );
        settings.push(
            Setting {
                object: plane,
                property: props.plane_src_h,
                value: self.tile_h as u64 * 0x1_0000,
            },
        );
        settings.push(Setting { object: plane, property: props.plane_crtc_x, value: 0 });
        settings.push(Setting { object: plane, property: props.plane_crtc_y, value: 0 });
        settings.push(
            Setting { object: plane, property: props.plane_crtc_w, value: self.tile_w as u64 },
        );
        settings.push(
            Setting { object: plane, property: props.plane_crtc_h, value: self.tile_h as u64 },
        );
        assert(settings@ =~= old(settings)@ + active_routing(self@, mode_blob, fb));
        self.push_neutral_member(settings, true);
        assert(settings@ =~= old(settings)@ + active_settings(self@, mode_blob, fb));
    }

    fn push_disabled(&self, settings: &mut Vec<Setting>)
        ensures
            final(settings)@ == old(settings)@ + disabled_settings(self@),
    {
        let props = &self.props;
        settings.push(
            Setting { object: self.connector, property: props.conn_crtc_id, value: 0 },
        );
        settings.push(Setting { object: self.crtc, property: props.crtc_mode_id, value: 0 });
        settings.push(Setting { object: self.crtc, property: props.crtc_active, value: 0 });
        settings.push(Setting { object: self.plane, property: props.plane_fb_id, value: 0 });
        settings.push(Setting { object: self.plane, property: props.plane_crtc_id, value: 0 });
        assert(settings@ =~= old(settings)@ + disabled_routing(self@));
        self.push_neutral_member(settings, false);
        assert(settings@ =~= old(settings)@ + disabled_settings(self@));
    }
}

// ---------------------------------------------------------------------------------------------
// Fingerprints
// ---------------------------------------------------------------------------------------------

/// What a validation of one member relied on.
#[derive(Debug)]
pub struct TiledKmsMemberFingerprint {
    pub crtc: u32,
    pub connector: u32,
    pub plane: u32,
    pub crtc_x: u32,
    pub tile_w: u32,
    pub tile_h: u32,
    pub props: MemberProps,
}

/// The contents of a member's fingerprint.
pub struct KmsMemberView {
    pub crtc: u32,
    pub connector: u32,
    pub plane: u32,
    pub crtc_x: u32,
    pub tile_w: u32,
    pub tile_h: u32,
    pub props: MemberPropsView,
}

impl View for TiledKmsMemberFingerprint {
    type V = KmsMemberView;

    open spec fn view(&self) -> KmsMemberView {
        KmsMemberView {
            crtc: self.crtc,
            connector: self.connector,
            plane: self.plane,
            crtc_x: self.crtc_x,
            tile_w: self.tile_w,
            tile_h: self.tile_h,
            props: self.props@,
        }
    }
}

/// The fingerprint of a member.
pub open spec fn kms_member(member: MemberView) -> KmsMemberView {
    KmsMemberView {
        crtc: member.crtc,
        connector: member.connector,
        plane: member.plane,
        crtc_x: member.crtc_x,
        tile_w: member.tile_w,
        tile_h: member.tile_h,
        props: member.props,
    }
}

impl TiledKmsMemberFingerprint {
    fn of(member: &TiledMember) -> (print: Self)
        ensures
            print@ == kms_member(member@),
    {
        TiledKmsMemberFingerprint {
            crtc: member.crtc,
            connector: member.connector,
            plane: member.plane,
            crtc_x: member.crtc_x,
            tile_w: member.tile_w,
            tile_h: member.tile_h,
            props: member.props.copy(),
        }
    }

    fn copy(&self) -> (copy: Self)
        ensures
            copy@ == self@,
    {
        TiledKmsMemberFingerprint {
            crtc: self.crtc,
            connector: self.connector,
            plane: self.plane,
            crtc_x: self.crtc_x,
            tile_w: self.tile_w,
            tile_h: self.tile_h,
            props: self.props.copy(),
        }
    }

    fn same(&self, other: &Self) -> (same: bool)
        ensures
            same == (self@ == other@),
    {
        self.crtc == other.crtc && self.connector == other.connector && self.plane == other.plane
            && self.crtc_x == other.crtc_x && self.tile_w == other.tile_w && self.tile_h
            == other.tile_h && same_member_props(&self.props, &other.props)
    }
}

/// What a validation of a group relied on.
#[derive(Debug)]
pub struct TiledKmsFingerprint {
    pub timing: TimingFingerprint,
    pub left: TiledKmsMemberFingerprint,
    pub right: TiledKmsMemberFingerprint,
}

/// The contents of a group's fingerprint.
pub struct KmsView {
    pub timing: TimingFingerprint,
    pub left: KmsMemberView,
    pub right: KmsMemberView,
}

impl View for TiledKmsFingerprint {
    type V = KmsView;

    open spec fn view(&self) -> KmsView {
        KmsView { timing: self.timing, left: self.left@, right: self.right@ }
    }
}

/// The fingerprint of two members driven with the given mode.
pub open spec fn kms_of(left: MemberView, right: MemberView, tile_mode: DrmMode) -> KmsView {
    KmsView {
        timing: modes::fingerprint(tile_mode),
        left: kms_member(left),
        right: kms_member(right),
    }
}

impl TiledKmsFingerprint {
    /// The fingerprint of two members driven with the given mode.
    pub fn new(members: &[TiledMember; 2], tile_mode: DrmMode) -> (print: Self)
        ensures
            print@ == kms_of(members@[0]@, members@[1]@, tile_mode),
    {
        TiledKmsFingerprint {
            timing: TimingFingerprint::from(tile_mode),
            left: TiledKmsMemberFingerprint::of(&members[0]),
            right: TiledKmsMemberFingerprint::of(&members[1]),
        }
    }

    fn copy(&self) -> (copy: Self)
        ensures
            copy@ == self@,
    {
        TiledKmsFingerprint {
            timing: self.timing,
            left: self.left.copy(),
            right: self.right.copy(),
        }
    }

    fn same(&self, other: &Self) -> (same: bool)
        ensures
            same == (self@ == other@),
    {
        self.timing == other.timing && self.left.same(&other.left) && self.right.same(&other.right)
    }
}

/// What a successful validation was for.
#[derive(Debug)]
pub struct TiledValidationFingerprint {
    pub generation: u64,
    pub kms: TiledKmsFingerprint,
    pub buffer_format: Format,
}

// ---------------------------------------------------------------------------------------------
// Frames
// ---------------------------------------------------------------------------------------------

/// A framebuffer retained for as long as either tiled CRTC may still scan it out: one that was
/// composited into a slot of the group's own buffers, or one of a client, shown directly.
#[derive(Debug)]
pub enum TiledScanoutBuffer<S, D> {
    Composited(S),
    Direct(D),
}

impl<S, D> TiledScanoutBuffer<S, D> {
    pub fn is_direct(&self) -> (direct: bool)
        ensures
            direct == self is Direct,
    {
        match self {
            TiledScanoutBuffer::Direct(_) => true,
            TiledScanoutBuffer::Composited(_) => false,
        }
    }
}

/// A framebuffer that has been committed but not yet presented.
#[derive(Debug)]
pub struct PendingTiledFrame<S, D, P> {
    pub buffer: TiledScanoutBuffer<S, D>,
    pub feedback: P,
    /// In nanoseconds.
    pub target_presentation_time: u128,
    pub submissions: [CrtcSubmissionId; 2],
}

/// What is reported about a presented frame.
#[derive(Debug)]
pub struct TiledPresentation<P> {
    pub feedback: P,
    /// In nanoseconds.
    pub target_presentation_time: u128,
}

// ---------------------------------------------------------------------------------------------
// Groups
// ---------------------------------------------------------------------------------------------

/// Two buffers are sufficient in steady state; a fourth slot indicates unusual retention or
/// completion latency worth surfacing in logs.
pub const EXPECTED_TILED_SWAPCHAIN_SLOTS: usize = 3;

/// A connected tiled group: one logical output rendered as a single framebuffer and scanned
/// out through two CRTCs.
#[derive(Debug)]
pub struct TiledGroup<S, D, P> {
    pub name: OutputName,
    /// Index of the output declaration that the group was formed under.
    pub config: Option<usize>,
    pub id: OutputId,
    /// Ordered by `crtc_x`; `members[0]` is the left (primary) tile.
    pub members: [TiledMember; 2],
    /// The common native tile mode each member CRTC is driven with.
    pub tile_mode: DrmMode,
    /// Synthesized full-size mode for the logical output.
    wl_mode: WlMode,
    kms_fingerprint: TiledKmsFingerprint,
    commit: TiledCommitTracker<TiledValidationFingerprint>,
    allocated_slots: usize,
    flip_state: TiledFlipState<PendingTiledFrame<S, D, P>>,
    /// Buffer currently scanned out; held until its replacement completes on both CRTCs.
    displayed_buffer: Option<TiledScanoutBuffer<S, D>>,
    /// Gamma change to apply upon session resume.
    pub pending_gamma_change: Option<Option<Vec<u16>>>,
    format: u32,
}

/// The contents of a group.
pub struct GroupView<S, D, P> {
    pub name: NameView,
    pub config: Option<usize>,
    pub id: OutputId,
    pub left: MemberView,
    pub right: MemberView,
    pub tile_mode: DrmMode,
    pub wl_mode: WlMode,
    pub kms: KmsView,
    pub commit: TiledCommitTracker<TiledValidationFingerprint>,
    pub allocated_slots: usize,
    pub flip_state: TiledFlipState<PendingTiledFrame<S, D, P>>,
    pub displayed_buffer: Option<TiledScanoutBuffer<S, D>>,
    pub pending_gamma_change: Option<Option<Vec<u16>>>,
    pub format: u32,
}

impl<S, D, P> View for TiledGroup<S, D, P> {
    type V = GroupView<S, D, P>;

    closed spec fn view(&self) -> GroupView<S, D, P> {
        GroupView {
            name: self.name@,
            config: self.config,
            id: self.id,
            left: self.members@[0]@,
            right: self.members@[1]@,
            tile_mode: self.tile_mode,
            wl_mode: self.wl_mode,
            kms: self.kms_fingerprint@,
            commit: self.commit,
            allocated_slots: self.allocated_slots,
            flip_state: self.flip_state,
            displayed_buffer: self.displayed_buffer,
            pending_gamma_change: self.pending_gamma_change,
            format: self.format,
        }
    }
}

/// Why a request cannot be built.
#[derive(Debug, Clone, Copy, PartialEq, Eq, Structural)]
pub enum RequestError {
    /// The mode blob of a member was not made.
    MissingModeBlob,
    /// An active commit shows a framebuffer.
    NoFramebuffer,
}

impl RequestError {
    /// The error in words.
    pub open spec fn message(self) -> Seq<char> {
        match self {
            RequestError::MissingModeBlob => "error creating mode blob"@,
            RequestError::NoFramebuffer => "no framebuffer for active tiled commit"@,
        }
    }

    /// The error in words.
    pub fn to_string(&self) -> (message: String)
        ensures
            message@ == self.message(),
            *self is MissingModeBlob ==> message@ == "error creating mode blob"@,
            *self is NoFramebuffer ==> message@ == "no framebuffer for active tiled commit"@,
    {
        match self {
            RequestError::MissingModeBlob => "error creating mode blob".to_owned(),
            RequestError::NoFramebuffer => "no framebuffer for active tiled commit".to_owned(),
        }
    }
}

/// The settings of a full commit of two members.
pub open spec fn full_settings(
    left: MemberView,
    right: MemberView,
    fb: Option<u32>,
    active: bool,
) -> Result<Seq<Setting>, RequestError> {
    if !active {
        Ok(disabled_settings(left) + disabled_settings(right))
    } else {
        match (left.mode_blob, fb, right.mode_blob) {
            (None, _, _) => Err(RequestError::MissingModeBlob),
            (Some(_), None, _) => Err(RequestError::NoFramebuffer),
            (Some(_), Some(_), None) => Err(RequestError::MissingModeBlob),
            (Some(left_blob), Some(shown), Some(right_blob)) => Ok(
                active_settings(left, left_blob, shown) + active_settings(
                    right,
                    right_blob,
                    shown,
                ),
            ),
        }
    }
}

/// Whether a member is where a plan puts it.
pub open spec fn member_as_planned(member: MemberView, planned: TiledMemberPlan) -> bool {
    &&& member.crtc == planned.crtc
    &&& member.connector == planned.connector
    &&& member.crtc_x == planned.crtc_x
    &&& member.tile_w == planned.tile_w
    &&& member.tile_h == planned.tile_h
}

/// Whether a validation is still for the given generation and fingerprint.
pub open spec fn still_valid(
    validated: Option<TiledValidationFingerprint>,
    generation: u64,
    kms: KmsView,
) -> bool {
    validated matches Some(v) && v.generation == generation && v.kms@ == kms
}

fn as_planned(member: &TiledMember, planned: &TiledMemberPlan) -> (yes: bool)
    ensures
        yes == member_as_planned(member@, *planned),
{
    member.crtc == planned.crtc && member.connector == planned.connector && member.crtc_x
        == planned.crtc_x && member.tile_w == planned.tile_w && member.tile_h == planned.tile_h
}

impl<S, D, P> TiledGroup<S, D, P> {
    /// The left member.
    pub open spec fn left(self) -> MemberView {
        self@.left
    }

    /// The right member.
    pub open spec fn right(self) -> MemberView {
        self@.right
    }

    /// Whether the handles are valid and a full request can count its properties.
    pub open spec fn wf(self) -> bool {
        &&& self.left().wf()
        &&& self.right().wf()
        &&& self.left().property_count() + self.right().property_count() <= u32::MAX
    }

    /// The member that a CRTC belongs to.
    pub open spec fn member_of(self, crtc: u32) -> Option<usize> {
        if self.left().crtc == crtc {
            Some(0)
        } else if self.right().crtc == crtc {
            Some(1)
        } else {
            None
        }
    }

    pub fn new(
        name: OutputName,
        config: Option<usize>,
        id: OutputId,
        members: [TiledMember; 2],
        tile_mode: DrmMode,
        wl_mode: WlMode,
        format: u32,
    ) -> (group: Self)
        ensures
            group@ == (GroupView {
                name: name@,
                config,
                id,
                left: members@[0]@,
                right: members@[1]@,
                tile_mode,
                wl_mode,
                kms: kms_of(members@[0]@, members@[1]@, tile_mode),
                commit: group@.commit,
                allocated_slots: 0,
                flip_state: TiledFlipState::<PendingTiledFrame<S, D, P>>::Idle,
                displayed_buffer: None::<TiledScanoutBuffer<S, D>>,
                pending_gamma_change: None,
                format,
            }),
            group@.commit.is_reset(),
    {
        let kms_fingerprint = TiledKmsFingerprint::new(&members, tile_mode);
        let commit = TiledCommitTracker {
            state: TiledCommitState::NeedsValidation,
            validated: None,
        };
        TiledGroup {
            name,
            config,
            id,
            members,
            tile_mode,
            wl_mode,
            kms_fingerprint,
            commit,
            allocated_slots: 0,
            flip_state: TiledFlipState::Idle,
            displayed_buffer: None,
            pending_gamma_change: None,
            format,
        }
    }

    pub fn primary_crtc(&self) -> (crtc: u32)
        ensures
            crtc == self.left().crtc,
    {
        self.members[0].crtc
    }

    pub fn member_crtcs(&self) -> (crtcs: [u32; 2])
        ensures
            crtcs@ == seq![self.left().crtc, self.right().crtc],
    {
        let crtcs = [self.members[0].crtc, self.members[1].crtc];
        assert(crtcs@ =~= seq![self.left().crtc, self.right().crtc]);
        crtcs
    }

    /// Whether every live KMS and configuration property still matches a fresh plan. Where both the
    /// group and the plan have a declaration, `equivalent` says whether these amount to the same.
    pub fn matches_plan(&self, plan: &TiledGroupPlan, equivalent: bool) -> (matches: bool)
        ensures
            matches == (self@.name == plan.name@ && (match (self@.config, plan.config) {
                (Some(_), Some(_)) => equivalent,
                (None, None) => true,
                _ => false,
            }) && modes::fingerprint(self@.tile_mode) == modes::fingerprint(plan.tile_mode)
                && member_as_planned(self.left(), plan.members@[0]) && member_as_planned(
                self.right(),
                plan.members@[1],
            )),
            matches ==> {
                &&& self.left().crtc == plan.members@[0].crtc
                &&& self.left().connector == plan.members@[0].connector
                &&& self.left().crtc_x == plan.members@[0].crtc_x
                &&& self.left().tile_w == plan.members@[0].tile_w
                &&& self.left().tile_h == plan.members@[0].tile_h
                &&& self.right().crtc == plan.members@[1].crtc
                &&& self.right().connector == plan.members@[1].connector
                &&& self.right().crtc_x == plan.members@[1].crtc_x
                &&& self.right().tile_w == plan.members@[1].tile_w
                &&& self.right().tile_h == plan.members@[1].tile_h
            },
    {
        let config_matches = match (self.config, plan.config) {
            (Some(_), Some(_)) => equivalent,
            (None, None) => true,
            _ => false,
        };
        same_name(&self.name, &plan.name) && config_matches && TimingFingerprint::from(
            self.tile_mode,
        ) == TimingFingerprint::from(plan.tile_mode) && as_planned(
            &self.members[0],
            &plan.members[0],
        ) && as_planned(&self.members[1], &plan.members[1])
    }

    pub fn format(&self) -> (format: u32)
        ensures
            format == self@.format,
    {
        self.format
    }

    /// Whether a frame has been committed but not yet presented on both tiles.
    pub fn has_pending_frame(&self) -> (yes: bool)
        ensures
            yes == self@.flip_state.committed() is Some,
    {
        self.flip_state.has_pending_frame()
    }

    /// Gives up every frame, validation and slot; the caller resets the buffers of the swapchain.
    /// Returns whether a frame was pending.
    pub fn reset_frame_state(&mut self) -> (had_pending_frame: bool)
        ensures
            had_pending_frame == old(self)@.flip_state.committed() is Some,
            final(self)@.flip_state is Idle,
            final(self)@.commit.is_reset(),
            final(self)@.displayed_buffer is None,
            final(self)@.allocated_slots == 0,
            final(self)@ == (GroupView {
                flip_state: final(self)@.flip_state,
                commit: final(self)@.commit,
                displayed_buffer: final(self)@.displayed_buffer,
                allocated_slots: 0,
                ..old(self)@
            }),
    {
        let had_pending_frame = self.flip_state.reset();
        self.commit.reset();
        self.displayed_buffer = None;
        self.allocated_slots = 0;
        had_pending_frame
    }

    /// Invalidates validation state after resume without releasing any framebuffer that either
    /// CRTC may still scan out; the caller resets the buffer ages. Pending completion remains
    /// pending and is watched again after monitor activation.
    pub fn invalidate_after_resume(&mut self)
        ensures
            final(self)@.commit.is_reset(),
            final(self)@ == (GroupView { commit: final(self)@.commit, ..old(self)@ }),
    {
        self.commit.reset();
    }

    /// How far the group is from being shown.
    pub fn commit_state(&self) -> (state: TiledCommitState)
        ensures
            state == self@.commit.state,
    {
        self.commit.state
    }

    /// How many slots were allocated for the group.
    pub fn allocated_slots(&self) -> (count: usize)
        ensures
            count == self@.allocated_slots,
    {
        self.allocated_slots
    }

    /// The synthesized full-size mode advertised on the logical output (e.g. 5120x2880@60).
    pub fn wl_mode(&self) -> (mode: WlMode)
        ensures
            mode == self@.wl_mode,
    {
        self.wl_mode
    }

    /// Counts a swapchain slot that was allocated; returns whether that is more than expected.
    pub fn slot_allocated(&mut self) -> (unexpected: bool)
        requires
            old(self)@.allocated_slots < usize::MAX,
        ensures
            final(self)@ == (GroupView {
                allocated_slots: (old(self)@.allocated_slots + 1) as usize,
                ..old(self)@
            }),
            unexpected == (old(self)@.allocated_slots + 1 > EXPECTED_TILED_SWAPCHAIN_SLOTS),
            unexpected <==> final(self)@.allocated_slots > 3,
    {
        self.allocated_slots = self.allocated_slots + 1;
        self.allocated_slots > EXPECTED_TILED_SWAPCHAIN_SLOTS
    }

    /// Drops the validation; the caller resets the buffer ages.
    pub fn invalidate_validation(&mut self)
        ensures
            final(self)@.commit.is_reset(),
            final(self)@ == (GroupView { commit: final(self)@.commit, ..old(self)@ }),
    {
        self.commit.reset();
    }

    /// Returns whether the already-active KMS state may accept a strict direct flip, and whether
    /// the buffer ages must be reset because the validation was dropped.
    pub fn direct_scanout_active(&mut self, generation: u64) -> (active: (bool, bool))
        ensures
            old(self)@.commit.prepares(
                final(self)@.commit,
                still_valid(old(self)@.commit.validated, generation, old(self)@.kms),
            ),
            final(self)@ == (GroupView { commit: final(self)@.commit, ..old(self)@ }),
            active.0 == (final(self)@.commit.state == TiledCommitState::Active),
            active.1 == (old(self)@.commit.state != TiledCommitState::NeedsValidation
                && final(self)@.commit.state == TiledCommitState::NeedsValidation),
    {
        let was_validated = self.commit.state != TiledCommitState::NeedsValidation;
        let fits = match &self.commit.validated {
            Some(validated) => validated.generation == generation && validated.kms.same(
                &self.kms_fingerprint,
            ),
            None => false,
        };
        let known = |validated: &TiledValidationFingerprint| -> (answer: bool)
            ensures
                answer == fits,
        {
            fits
        };
        let state = self.commit.prepare(known);
        (
            state == TiledCommitState::Active,
            was_validated && state == TiledCommitState::NeedsValidation,
        )
    }

    /// Returning from direct scanout invalidates all composited buffer history: whether the buffer
    /// ages must be reset before the next composited frame.
    pub fn prepare_composited_frame(&self) -> (reset_ages: bool)
        ensures
            reset_ages == (self@.displayed_buffer matches Some(buffer) && buffer is Direct),
    {
        match &self.displayed_buffer {
            Some(buffer) => buffer.is_direct(),
            None => false,
        }
    }

    /// Returns what a commit of a buffer of the given format needs, and whether the buffer ages
    /// must be reset because the validation was dropped.
    pub fn prepare_commit(&mut self, generation: u64, buffer_format: Format) -> (needs: (
        TiledCommitState,
        bool,
    ))
        ensures
            old(self)@.commit.prepares(
                final(self)@.commit,
                still_valid(old(self)@.commit.validated, generation, old(self)@.kms) && (
                old(self)@.commit.validated matches Some(v) && v.buffer_format == buffer_format),
            ),
            final(self)@ == (GroupView { commit: final(self)@.commit, ..old(self)@ }),
            needs.0 == final(self)@.commit.state,
            needs.1 == (old(self)@.commit.state != TiledCommitState::NeedsValidation
                && final(self)@.commit.state == TiledCommitState::NeedsValidation),
    {
        let was_validated = self.commit.state != TiledCommitState::NeedsValidation;
        let fits = match &self.commit.validated {
            Some(validated) => validated.generation == generation && validated.buffer_format
                == buffer_format && validated.kms.same(&self.kms_fingerprint),
            None => false,
        };
        let known = |validated: &TiledValidationFingerprint| -> (answer: bool)
            ensures
                answer == fits,
        {
            fits
        };
        let state = self.commit.prepare(known);
        (state, was_validated && state == TiledCommitState::NeedsValidation)
    }

    /// Takes note of a successful validation of a buffer of the given format.
    pub fn validation_succeeded(&mut self, generation: u64, buffer_format: Format)
        ensures
            final(self)@.commit.state == TiledCommitState::ValidatedNeedsModeset,
            final(self)@.commit.validated matches Some(v) && v.generation == generation && v.kms@
                == old(self)@.kms && v.buffer_format == buffer_format,
            final(self)@ == (GroupView { commit: final(self)@.commit, ..old(self)@ }),
    {
        let kms = self.kms_fingerprint.copy();
        self.commit.validated(TiledValidationFingerprint { generation, kms, buffer_format });
    }

    /// Takes note of a successful modeset, which follows a validation.
    pub fn modeset_succeeded(&mut self)
        requires
            old(self)@.commit.state == TiledCommitState::ValidatedNeedsModeset,
        ensures
            final(self)@.commit.state == TiledCommitState::Active,
            final(self)@.commit.validated == old(self)@.commit.validated,
            final(self)@ == (GroupView { commit: final(self)@.commit, ..old(self)@ }),
    {
        self.commit.activated();
    }
}

// ---------------------------------------------------------------------------------------------
// Requests
// ---------------------------------------------------------------------------------------------

proof fn lemma_neutral_wf(member: MemberView, active: bool)
    requires
        member.wf(),
    ensures
        request::settings_wf(neutral_member(member, active)),
        neutral_member(member, active).len() + 13 == member.property_count(),
{
    let connector = neutral_settings(member.connector, member.props.connector_neutral);
    let crtc = crtc_settings(member, active);
    let plane = neutral_settings(member.plane, member.props.plane_neutral);
    assert(request::settings_wf(connector)) by {
        assert forall|i: int| 0 <= i < connector.len() implies (#[trigger] connector[i]).object != 0
            && connector[i].property != 0 by {
            assert(member.props.connector_neutral[i].0 != 0);
        }
    }
    assert(request::settings_wf(crtc)) by {
        assert forall|i: int| 0 <= i < crtc.len() implies (#[trigger] crtc[i]).object != 0
            && crtc[i].property != 0 by {
            assert(member.props.crtc_neutral[i].0 != 0);
        }
    }
    assert(request::settings_wf(plane)) by {
        assert forall|i: int| 0 <= i < plane.len() implies (#[trigger] plane[i]).object != 0
            && plane[i].property != 0 by {
            assert(member.props.plane_neutral[i].0 != 0);
        }
    }
    lemma_join_wf(connector, crtc);
    lemma_join_wf(connector + crtc, plane);
}

proof fn lemma_join_wf(a: Seq<Setting>, b: Seq<Setting>)
    requires
        request::settings_wf(a),
        request::settings_wf(b),
    ensures
        request::settings_wf(a + b),
{
    assert forall|i: int| 0 <= i < (a + b).len() implies (#[trigger] (a + b)[i]).object != 0 && (a
        + b)[i].property != 0 by {
        if i < a.len() {
            assert((a + b)[i] == a[i]);
        } else {
            assert((a + b)[i] == b[i - a.len()]);
        }
    }
}

proof fn lemma_active_wf(member: MemberView, mode_blob: u64, fb: u32)
    requires
        member.wf(),
    ensures
        request::settings_wf(active_settings(member, mode_blob, fb)),
        active_settings(member, mode_blob, fb).len() == member.property_count(),
{
    lemma_neutral_wf(member, true);
    lemma_join_wf(active_routing(member, mode_blob, fb), neutral_member(member, true));
}

proof fn lemma_disabled_wf(member: MemberView)
    requires
        member.wf(),
    ensures
        request::settings_wf(disabled_settings(member)),
        disabled_settings(member).len() <= member.property_count(),
{
    lemma_neutral_wf(member, false);
    lemma_join_wf(disabled_routing(member), neutral_member(member, false));
}

impl<S, D, P> TiledGroup<S, D, P> {
    /// Builds a request that sets every property of both members: with a framebuffer to show, or to
    /// take both out of use.
    pub fn build_full_request(&self, fb: Option<u32>, active: bool) -> (built: Result<
        AtomicModeReq,
        RequestError,
    >)
        requires
            self.wf(),
        ensures
            match full_settings(self.left(), self.right(), fb, active) {
                Ok(settings) => built matches Ok(req) && request::request_properties(req)
                    == request::applied(settings),
                Err(e) => built matches Err(error) && error == e,
            },
    {
        let mut settings: Vec<Setting> = Vec::new();
        if active {
            let left_blob: u64 = match self.members[0].mode_blob {
                Some(blob) => blob,
                None => {
                    return Err(RequestError::MissingModeBlob);
                },
            };
            let shown: u32 = match fb {
                Some(shown) => shown,
                None => {
                    return Err(RequestError::NoFramebuffer);
                },
            };
            let right_blob: u64 = match self.members[1].mode_blob {
                Some(blob) => blob,
                None => {
                    return Err(RequestError::MissingModeBlob);
                },
            };
            self.members[0].push_active(&mut settings, left_blob, shown);
            self.members[1].push_active(&mut settings, right_blob, shown);
            proof {
                lemma_active_wf(self.left(), left_blob, shown);
                lemma_active_wf(self.right(), right_blob, shown);
                let left = active_settings(self.left(), left_blob, shown);
                let right = active_settings(self.right(), right_blob, shown);
                lemma_join_wf(left, right);
                assert(settings@ =~= left + right);
            }
        } else {
            self.members[0].push_disabled(&mut settings);
            self.members[1].push_disabled(&mut settings);
            proof {
                lemma_disabled_wf(self.left());
                lemma_disabled_wf(self.right());
                let left = disabled_settings(self.left());
                let right = disabled_settings(self.right());
                lemma_join_wf(left, right);
                assert(settings@ =~= left + right);
            }
        }
        Ok(request_of(&settings))
    }

    /// Builds a full test request for both tiles from one framebuffer.
    pub fn build_validation_request(&self, fb: u32) -> (built: Result<AtomicModeReq, RequestError>)
        requires
            self.wf(),
        ensures
            match full_settings(self.left(), self.right(), Some(fb), true) {
                Ok(settings) => built matches Ok(req) && request::request_properties(req)
                    == request::applied(settings),
                Err(e) => built matches Err(error) && error == e,
            },
    {
        self.build_full_request(Some(fb), true)
    }

    /// Builds the real all-or-nothing modeset after validation.
    pub fn build_modeset_request(&self, fb: u32) -> (built: Result<AtomicModeReq, RequestError>)
        requires
            self.wf(),
        ensures
            match full_settings(self.left(), self.right(), Some(fb), true) {
                Ok(settings) => built matches Ok(req) && request::request_properties(req)
                    == request::applied(settings),
                Err(e) => built matches Err(error) && error == e,
            },
    {
        self.build_full_request(Some(fb), true)
    }

    /// Builds a steady-state page flip. All geometry and routing remain unchanged.
    pub fn build_flip_request(&self, fb: u32) -> (req: AtomicModeReq)
        requires
            self.wf(),
        ensures
            request::request_properties(req) == request::applied(
                flip_settings(self.left(), self.right(), fb),
            ),
    {
        let mut settings: Vec<Setting> = Vec::new();
        settings.push(
            Setting {
                object: self.members[0].plane,
                property: self.members[0].props.plane_fb_id,
                value: fb as u64,
            },
        );
        settings.push(
            Setting {
                object: self.members[1].plane,
                property: self.members[1].props.plane_fb_id,
                value: fb as u64,
            },
        );
        assert(settings@ =~= flip_settings(self.left(), self.right(), fb));
        request_of(&settings)
    }

    /// Builds a request that disables both member CRTCs together.
    pub fn build_disable_request(&self) -> (built: Result<AtomicModeReq, RequestError>)
        requires
            self.wf(),
        ensures
            built matches Ok(req) && request::request_properties(req) == request::applied(
                disabled_settings(self.left()) + disabled_settings(self.right()),
            ),
    {
        self.build_full_request(None, false)
    }

    /// Whether requests can be built: the handles are valid and a full request can count its
    /// properties.
    pub fn is_valid(&self) -> (yes: bool)
        ensures
            yes == self.wf(),
    {
        self.members[0].is_valid() && self.members[1].is_valid() && self.members[0].settings()
            + self.members[1].settings() <= u32::MAX as u128
    }

    /// The number of properties that a modeset of the group sets.
    pub fn modeset_property_count(&self) -> (count: usize)
        requires
            self.left().property_count() + self.right().property_count() <= usize::MAX,
        ensures
            count == self.left().property_count() + self.right().property_count(),
    {
        let left = &self.members[0].props;
        let right = &self.members[1].props;
        let left_count: usize = 13 + left.connector_neutral.len() + left.crtc_neutral.len()
            + left.plane_neutral.len();
        let right_count: usize = 13 + right.connector_neutral.len() + right.crtc_neutral.len()
            + right.plane_neutral.len();
        left_count + right_count
    }

    /// Gives up the mode blobs of both members; returns those to destroy.
    pub fn destroy(&mut self) -> (destroy: Vec<u64>)
        ensures
            destroy@ == gamma::blob_list(old(self).left().mode_blob) + gamma::blob_list(
                old(self).right().mode_blob,
            ),
            final(self).left() == (MemberView { mode_blob: None, ..old(self).left() }),
            final(self).right() == (MemberView { mode_blob: None, ..old(self).right() }),
            final(self)@ == (GroupView {
                left: final(self)@.left,
                right: final(self)@.right,
                ..old(self)@
            }),
    {
        let mut destroy: Vec<u64> = Vec::new();
        let left = self.members[0].destroy_mode_blob();
        if let Some(blob) = left {
            destroy.push(blob);
        }
        let right = self.members[1].destroy_mode_blob();
        if let Some(blob) = right {
            destroy.push(blob);
        }
        assert(destroy@ =~= gamma::blob_list(left) + gamma::blob_list(right));
        destroy
    }

    // -----------------------------------------------------------------------------------------
    // Frames
    // -----------------------------------------------------------------------------------------

    fn index_of(&self, crtc: u32) -> (index: Option<usize>)
        ensures
            index == self.member_of(crtc),
    {
        if self.members[0].crtc == crtc {
            Some(0)
        } else if self.members[1].crtc == crtc {
            Some(1)
        } else {
            None
        }
    }

    /// Records a member vblank event; once both tiles delivered an event for the current
    /// frame, returns the primary tile's sequence with the later tile's timestamp.
    pub fn record_member_event(&mut self, crtc: u32, meta: DrmEventMetadata) -> (done: Option<
        (PendingTiledFrame<S, D, P>, DrmEventMetadata),
    >)
        ensures
            match old(self).member_of(crtc) {
                Some(member) => (final(self)@.flip_state, done) == old(self)@.flip_state.after_event(
                    member,
                    meta,
                ),
                None => done is None && final(self)@.flip_state == old(self)@.flip_state,
            },
            final(self)@ == (GroupView { flip_state: final(self)@.flip_state, ..old(self)@ }),
    {
        match self.index_of(crtc) {
            Some(member) => self.flip_state.record_member_event(member, meta),
            None => None,
        }
    }

    /// The submission of the pending frame on the given CRTC.
    pub fn pending_submission(&self, crtc: u32) -> (submission: Option<CrtcSubmissionId>)
        ensures
            submission == (match (self.member_of(crtc), self@.flip_state.committed()) {
                (Some(member), Some(frame)) => Some(frame.submissions@[member as int]),
                _ => None,
            }),
    {
        match self.index_of(crtc) {
            Some(member) => match self.flip_state.pending() {
                Some(frame) => Some(frame.submissions[member]),
                None => None,
            },
            None => None,
        }
    }

    /// Holds the newly displayed buffer, releases the previous one, and returns presentation data.
    pub fn frame_presented(&mut self, frame: PendingTiledFrame<S, D, P>) -> (shown:
        TiledPresentation<P>)
        ensures
            final(self)@.displayed_buffer == Some(frame.buffer),
            shown.feedback == frame.feedback,
            shown.target_presentation_time == frame.target_presentation_time,
            final(self)@ == (GroupView {
                displayed_buffer: final(self)@.displayed_buffer,
                ..old(self)@
            }),
    {
        self.displayed_buffer = Some(frame.buffer);
        TiledPresentation {
            feedback: frame.feedback,
            target_presentation_time: frame.target_presentation_time,
        }
    }

    /// Marks a frame as committed, awaiting presentation on both tiles.
    pub fn frame_committed(&mut self, frame: PendingTiledFrame<S, D, P>)
        requires
            old(self)@.flip_state is Idle,
        ensures
            final(self)@.flip_state == TiledFlipState::AwaitingBoth(frame),
            final(self)@ == (GroupView { flip_state: final(self)@.flip_state, ..old(self)@ }),
    {
        self.flip_state.frame_committed(frame);
    }
}

/// The settings of a page flip.
pub open spec fn flip_settings(left: MemberView, right: MemberView, fb: u32) -> Seq<Setting> {
    seq![
        Setting { object: left.plane, property: left.props.plane_fb_id, value: fb as u64 },
        Setting { object: right.plane, property: right.props.plane_fb_id, value: fb as u64 },
    ]
}

// ---------------------------------------------------------------------------------------------
// Laws
// ---------------------------------------------------------------------------------------------

/// A member is where a plan puts it exactly when it has the CRTC, the connector, the offset and the
/// tile size that the plan gives it.
pub proof fn law_members_match_a_plan_in_every_field(member: MemberView, planned: TiledMemberPlan)
    ensures
        member_as_planned(member, planned) <==> {
            &&& member.crtc == planned.crtc
            &&& member.connector == planned.connector
            &&& member.crtc_x == planned.crtc_x
            &&& member.tile_w == planned.tile_w
            &&& member.tile_h == planned.tile_h
        },
{
}

/// Where both members of a group are where a plan puts them, the group drives the CRTCs of the plan
/// from left to right; a plan for other CRTCs or connectors is another plan.
pub proof fn law_matched_groups_drive_the_planned_crtcs<S, D, P>(
    group: TiledGroup<S, D, P>,
    plan: TiledGroupPlan,
    other: TiledGroupPlan,
)
    requires
        member_as_planned(group.left(), plan.members@[0]),
        member_as_planned(group.right(), plan.members@[1]),
    ensures
        group.member_of(plan.members@[0].crtc) == Some(0usize),
        plan.members@[0].crtc != plan.members@[1].crtc ==> group.member_of(plan.members@[1].crtc)
            == Some(1usize),
        (other.members@[0].crtc != plan.members@[0].crtc || other.members@[0].connector
            != plan.members@[0].connector) ==> !member_as_planned(group.left(), other.members@[0]),
        (other.members@[1].crtc != plan.members@[1].crtc || other.members@[1].connector
            != plan.members@[1].connector) ==> !member_as_planned(
            group.right(),
            other.members@[1],
        ),
{
}

/// An active commit keeps a member's gamma table although it puts the CRTC into its neutral state;
/// a disabling commit does not.
pub proof fn law_active_commits_keep_gamma(member: MemberView, gamma: GammaProps, i: int)
    requires
        member.gamma_props == Some(gamma),
        0 <= i < member.props.crtc_neutral.len(),
        member.props.crtc_neutral[i].0 == gamma.gamma_lut,
    ensures
        crtc_settings(member, true)[i].value == gamma::blob_value(gamma.previous_blob),
        crtc_settings(member, false)[i].value == member.props.crtc_neutral[i].1,
{
}

/// A page flip sets nothing but the framebuffers of the two planes, both to the same one.
pub proof fn law_flips_change_only_framebuffers(
    left: MemberView,
    right: MemberView,
    fb: u32,
    object: u32,
    property: u32,
)
    requires
        request::applied(flip_settings(left, right, fb)).contains_key((object, property)),
    ensures
        (object == left.plane && property == left.props.plane_fb_id) || (object == right.plane
            && property == right.props.plane_fb_id),
        request::applied(flip_settings(left, right, fb))[(object, property)] == fb,
{
    let settings = flip_settings(left, right, fb);
    request::law_only_named_properties_are_set(settings, object, property);
    request::law_last_setting_wins(settings, 1);
    if (left.plane, left.props.plane_fb_id) != (right.plane, right.props.plane_fb_id) {
        request::law_last_setting_wins(settings, 0);
    }
}

/// A disabling commit routes neither connector to a CRTC and leaves no CRTC active, as long as each
/// property is set once.
pub proof fn law_disabling_takes_both_members_out_of_use(left: MemberView, right: MemberView)
    requires
        ({
            let settings = disabled_settings(left) + disabled_settings(right);
            forall|a: int, b: int|
                0 <= a < b < settings.len() ==> ((#[trigger] settings[a]).object,
                    settings[a].property) != ((#[trigger] settings[b]).object, settings[b].property)
        }),
    ensures
        ({
            let set = request::applied(disabled_settings(left) + disabled_settings(right));
            &&& set[(left.connector, left.props.conn_crtc_id)] == 0
            &&& set[(left.crtc, left.props.crtc_mode_id)] == 0
            &&& set[(left.crtc, left.props.crtc_active)] == 0
            &&& set[(left.plane, left.props.plane_fb_id)] == 0
            &&& set[(left.plane, left.props.plane_crtc_id)] == 0
            &&& set[(right.connector, right.props.conn_crtc_id)] == 0
            &&& set[(right.crtc, right.props.crtc_mode_id)] == 0
            &&& set[(right.crtc, right.props.crtc_active)] == 0
            &&& set[(right.plane, right.props.plane_fb_id)] == 0
            &&& set[(right.plane, right.props.plane_crtc_id)] == 0
        }),
{
    let settings = disabled_settings(left) + disabled_settings(right);
    let n = disabled_settings(left).len() as int;
    assert(settings[0] == disabled_routing(left)[0]);
    assert(settings[n + 0] == disabled_routing(right)[0]);
    assert(settings[1] == disabled_routing(left)[1]);
    assert(settings[n + 1] == disabled_routing(right)[1]);
    assert(settings[2] == disabled_routing(left)[2]);
    assert(settings[n + 2] == disabled_routing(right)[2]);
    assert(settings[3] == disabled_routing(left)[3]);
    assert(settings[n + 3] == disabled_routing(right)[3]);
    assert(settings[4] == disabled_routing(left)[4]);
    assert(settings[n + 4] == disabled_routing(right)[4]);
    request::law_distinct_settings_all_take_effect(settings, 0);
    request::law_distinct_settings_all_take_effect(settings, n + 0);
    request::law_distinct_settings_all_take_effect(settings, 1);
    request::law_distinct_settings_all_take_effect(settings, n + 1);
    request::law_distinct_settings_all_take_effect(settings, 2);
    request::law_distinct_settings_all_take_effect(settings, n + 2);
    request::law_distinct_settings_all_take_effect(settings, 3);
    request::law_distinct_settings_all_take_effect(settings, n + 3);
    request::law_distinct_settings_all_take_effect(settings, 4);
    request::law_distinct_settings_all_take_effect(settings, n + 4);
}

/// An active commit routes each connector and plane to its own CRTC, runs that CRTC with its mode,
/// and shows one framebuffer on both planes, each with its own tile of it cropped out to fill the
/// whole CRTC, as long as each property is set once. Crops are fixed-point
/// numbers with sixteen binary digits behind the point.
pub proof fn law_active_commits_crop_one_framebuffer(
    left: MemberView,
    right: MemberView,
    left_blob: u64,
    right_blob: u64,
    fb: u32,
)
    requires
        ({
            let settings = active_settings(left, left_blob, fb) + active_settings(right, right_blob, fb);
            forall|a: int, b: int|
                0 <= a < b < settings.len() ==> ((#[trigger] settings[a]).object,
                    settings[a].property) != ((#[trigger] settings[b]).object, settings[b].property)
        }),
    ensures
        ({
            let set = request::applied(active_settings(left, left_blob, fb) + active_settings(right, right_blob, fb));
            &&& set[(left.connector, left.props.conn_crtc_id)] == left.crtc
            &&& set[(left.crtc, left.props.crtc_mode_id)] == left_blob
            &&& set[(left.crtc, left.props.crtc_active)] == 1
            &&& set[(left.plane, left.props.plane_fb_id)] == fb
            &&& set[(left.plane, left.props.plane_crtc_id)] == left.crtc
            &&& set[(left.plane, left.props.plane_src_x)] == left.crtc_x * 0x1_0000
            &&& set[(left.plane, left.props.plane_src_y)] == 0
            &&& set[(left.plane, left.props.plane_src_w)] == left.tile_w * 0x1_0000
            &&& set[(left.plane, left.props.plane_src_h)] == left.tile_h * 0x1_0000
            &&& set[(left.plane, left.props.plane_crtc_x)] == 0
            &&& set[(left.plane, left.props.plane_crtc_y)] == 0
            &&& set[(left.plane, left.props.plane_crtc_w)] == left.tile_w
            &&& set[(left.plane, left.props.plane_crtc_h)] == left.tile_h
            &&& set[(right.connector, right.props.conn_crtc_id)] == right.crtc
            &&& set[(right.crtc, right.props.crtc_mode_id)] == right_blob
            &&& set[(right.crtc, right.props.crtc_active)] == 1
            &&& set[(right.plane, right.props.plane_fb_id)] == fb
            &&& set[(right.plane, right.props.plane_crtc_id)] == right.crtc
            &&& set[(right.plane, right.props.plane_src_x)] == right.crtc_x * 0x1_0000
            &&& set[(right.plane, right.props.plane_src_y)] == 0
            &&& set[(right.plane, right.props.plane_src_w)] == right.tile_w * 0x1_0000
            &&& set[(right.plane, right.props.plane_src_h)] == right.tile_h * 0x1_0000
            &&& set[(right.plane, right.props.plane_crtc_x)] == 0
            &&& set[(right.plane, right.props.plane_crtc_y)] == 0
            &&& set[(right.plane, right.props.plane_crtc_w)] == right.tile_w
            &&& set[(right.plane, right.props.plane_crtc_h)] == right.tile_h
        }),
{
    let settings = active_settings(left, left_blob, fb) + active_settings(right, right_blob, fb);
    let n = active_settings(left, left_blob, fb).len() as int;
    assert(settings[0] == active_routing(left, left_blob, fb)[0]);
    assert(settings[n + 0] == active_routing(right, right_blob, fb)[0]);
    assert(settings[1] == active_routing(left, left_blob, fb)[1]);
    assert(settings[n + 1] == active_routing(right, right_blob, fb)[1]);
    assert(settings[2] == active_routing(left, left_blob, fb)[2]);
    assert(settings[n + 2] == active_routing(right, right_blob, fb)[2]);
    assert(settings[3] == active_routing(left, left_blob, fb)[3]);
    assert(settings[n + 3] == active_routing(right, right_blob, fb)[3]);
    assert(settings[4] == active_routing(left, left_blob, fb)[4]);
    assert(settings[n + 4] == active_routing(right, right_blob, fb)[4]);
    assert(settings[5] == active_routing(left, left_blob, fb)[5]);
    assert(settings[n + 5] == active_routing(right, right_blob, fb)[5]);
    assert(settings[6] == active_routing(left, left_blob, fb)[6]);
    assert(settings[n + 6] == active_routing(right, right_blob, fb)[6]);
    assert(settings[7] == active_routing(left, left_blob, fb)[7]);
    assert(settings[n + 7] == active_routing(right, right_blob, fb)[7]);
    assert(settings[8] == active_routing(left, left_blob, fb)[8]);
    assert(settings[n + 8] == active_routing(right, right_blob, fb)[8]);
    assert(settings[9] == active_routing(left, left_blob, fb)[9]);
    assert(settings[n + 9] == active_routing(right, right_blob, fb)[9]);
    assert(settings[10] == active_routing(left, left_blob, fb)[10]);
    assert(settings[n + 10] == active_routing(right, right_blob, fb)[10]);
    assert(settings[11] == active_routing(left, left_blob, fb)[11]);
    assert(settings[n + 11] == active_routing(right, right_blob, fb)[11]);
    assert(settings[12] == active_routing(left, left_blob, fb)[12]);
    assert(settings[n + 12] == active_routing(right, right_blob, fb)[12]);
    request::law_distinct_settings_all_take_effect(settings, 0);
    request::law_distinct_settings_all_take_effect(settings, n + 0);
    request::law_distinct_settings_all_take_effect(settings, 1);
    request::law_distinct_settings_all_take_effect(settings, n + 1);
    request::law_distinct_settings_all_take_effect(settings, 2);
    request::law_distinct_settings_all_take_effect(settings, n + 2);
    request::law_distinct_settings_all_take_effect(settings, 3);
    request::law_distinct_settings_all_take_effect(settings, n + 3);
    request::law_distinct_settings_all_take_effect(settings, 4);
    request::law_distinct_settings_all_take_effect(settings, n + 4);
    request::law_distinct_settings_all_take_effect(settings, 5);
    request::law_distinct_settings_all_take_effect(settings, n + 5);
    request::law_distinct_settings_all_take_effect(settings, 6);
    request::law_distinct_settings_all_take_effect(settings, n + 6);
    request::law_distinct_settings_all_take_effect(settings, 7);
    request::law_distinct_settings_all_take_effect(settings, n + 7);
    request::law_distinct_settings_all_take_effect(settings, 8);
    request::law_distinct_settings_all_take_effect(settings, n + 8);
    request::law_distinct_settings_all_take_effect(settings, 9);
    request::law_distinct_settings_all_take_effect(settings, n + 9);
    request::law_distinct_settings_all_take_effect(settings, 10);
    request::law_distinct_settings_all_take_effect(settings, n + 10);
    request::law_distinct_settings_all_take_effect(settings, 11);
    request::law_distinct_settings_all_take_effect(settings, n + 11);
    request::law_distinct_settings_all_take_effect(settings, 12);
    request::law_distinct_settings_all_take_effect(settings, n + 12);
}

/// Every setting of a member's commit comes from one of four places: its routing, or the neutral
/// state of its connector, its CRTC or its plane, each set on that object. Only the gamma table of
/// an active CRTC differs from the neutral state.
pub proof fn law_commits_put_members_into_their_neutral_state(
    member: MemberView,
    mode_blob: u64,
    fb: u32,
    i: int,
)
    ensures
        0 <= i < member.props.connector_neutral.len() ==> ({
            let setting = Setting {
                object: member.connector,
                property: member.props.connector_neutral[i].0,
                value: member.props.connector_neutral[i].1,
            };
            active_settings(member, mode_blob, fb).contains(setting) && disabled_settings(
                member,
            ).contains(setting)
        }),
        0 <= i < member.props.plane_neutral.len() ==> ({
            let setting = Setting {
                object: member.plane,
                property: member.props.plane_neutral[i].0,
                value: member.props.plane_neutral[i].1,
            };
            active_settings(member, mode_blob, fb).contains(setting) && disabled_settings(
                member,
            ).contains(setting)
        }),
        0 <= i < member.props.crtc_neutral.len() ==> ({
            let neutral = Setting {
                object: member.crtc,
                property: member.props.crtc_neutral[i].0,
                value: member.props.crtc_neutral[i].1,
            };
            &&& disabled_settings(member).contains(neutral)
            &&& (member.gamma_props matches Some(gamma) && gamma.gamma_lut == neutral.property)
                || active_settings(member, mode_blob, fb).contains(neutral)
            &&& member.gamma_props matches Some(gamma) ==> (gamma.gamma_lut == neutral.property
                ==> active_settings(member, mode_blob, fb).contains(
                (Setting {
                    value: match gamma.previous_blob {
                        Some(id) => id,
                        None => 0,
                    },
                    ..neutral
                }),
            ))
        }),
        active_settings(member, mode_blob, fb).len() == member.property_count(),
        disabled_settings(member).len() == member.property_count() - 8,
{
    let on = active_settings(member, mode_blob, fb);
    let off = disabled_settings(member);
    let conn = member.props.connector_neutral.len() as int;
    let crtc = member.props.crtc_neutral.len() as int;
    if 0 <= i < conn {
        assert(on[13 + i] == neutral_settings(member.connector, member.props.connector_neutral)[i]);
        assert(off[5 + i] == neutral_settings(member.connector, member.props.connector_neutral)[i]);
    }
    if 0 <= i < crtc {
        assert(on[13 + conn + i] == crtc_settings(member, true)[i]);
        assert(off[5 + conn + i] == crtc_settings(member, false)[i]);
    }
    if 0 <= i < member.props.plane_neutral.len() {
        assert(on[13 + conn + crtc + i] == neutral_settings(
            member.plane,
            member.props.plane_neutral,
        )[i]);
        assert(off[5 + conn + crtc + i] == neutral_settings(
            member.plane,
            member.props.plane_neutral,
        )[i]);
    }
}

/// A full commit that shows something needs the mode blobs of both members and a framebuffer; one
/// that disables the group needs none of them.
pub proof fn law_full_commits_need_blobs_and_a_framebuffer(
    left: MemberView,
    right: MemberView,
    fb: Option<u32>,
)
    ensures
        full_settings(left, right, fb, false) is Ok,
        full_settings(left, right, fb, true) is Ok <==> left.mode_blob is Some && right.mode_blob
            is Some && fb is Some,
        left.mode_blob is None ==> full_settings(left, right, fb, true) == Err::<
            Seq<Setting>,
            RequestError,
        >(RequestError::MissingModeBlob),
        left.mode_blob is Some && fb is None ==> full_settings(left, right, fb, true) == Err::<
            Seq<Setting>,
            RequestError,
        >(RequestError::NoFramebuffer),
        left.mode_blob is Some && fb is Some && right.mode_blob is None ==> full_settings(
            left,
            right,
            fb,
            true,
        ) == Err::<Seq<Setting>, RequestError>(RequestError::MissingModeBlob),
        full_settings(left, right, fb, true) is Ok ==> full_settings(left, right, fb, true) == Ok::<
            Seq<Setting>,
            RequestError,
        >(
            active_settings(left, left.mode_blob->0, fb->0) + active_settings(
                right,
                right.mode_blob->0,
                fb->0,
            ),
        ),
        full_settings(left, right, fb, false) == Ok::<Seq<Setting>, RequestError>(
            disabled_settings(left) + disabled_settings(right),
        ),
{
}

/// A flip shows the framebuffer on the planes of both members.
pub proof fn law_flips_reach_both_planes(left: MemberView, right: MemberView, fb: u32)
    ensures
        ({
            let set = request::applied(flip_settings(left, right, fb));
            &&& set.contains_key((left.plane, left.props.plane_fb_id))
            &&& set[(left.plane, left.props.plane_fb_id)] == fb
            &&& set.contains_key((right.plane, right.props.plane_fb_id))
            &&& set[(right.plane, right.props.plane_fb_id)] == fb
        }),
{
    let settings = flip_settings(left, right, fb);
    request::law_last_setting_wins(settings, 1);
    if (left.plane, left.props.plane_fb_id) != (right.plane, right.props.plane_fb_id) {
        request::law_last_setting_wins(settings, 0);
    }
}

/// Two groups have the same fingerprint exactly when every timing, every object, every tile and
/// every cached property of both members is the same; the blobs that they hold do not count.
pub proof fn law_kms_fingerprints_tell_groups_apart(
    left: MemberView,
    right: MemberView,
    mode: DrmMode,
    other_left: MemberView,
    other_right: MemberView,
    other_mode: DrmMode,
)
    ensures
        kms_of(left, right, mode) == kms_of(other_left, other_right, other_mode) <==> {
            &&& modes::fingerprint(mode) == modes::fingerprint(other_mode)
            &&& left.crtc == other_left.crtc
            &&& left.connector == other_left.connector
            &&& left.plane == other_left.plane
            &&& left.crtc_x == other_left.crtc_x
            &&& left.tile_w == other_left.tile_w
            &&& left.tile_h == other_left.tile_h
            &&& left.props == other_left.props
            &&& right.crtc == other_right.crtc
            &&& right.connector == other_right.connector
            &&& right.plane == other_right.plane
            &&& right.crtc_x == other_right.crtc_x
            &&& right.tile_w == other_right.tile_w
            &&& right.tile_h == other_right.tile_h
            &&& right.props == other_right.props
        },
{
}

/// A validation stays valid exactly as long as the device generation and the fingerprint are those
/// that it was made for.
pub proof fn law_validations_expire_with_generation_and_fingerprint(
    validated: TiledValidationFingerprint,
    generation: u64,
    kms: KmsView,
)
    ensures
        still_valid(Some(validated), generation, kms) <==> validated.generation == generation
            && validated.kms@ == kms,
        !still_valid(None, generation, kms),
{
}

/// A CRTC belongs to the member that it drives, and to none where it drives neither.
pub proof fn law_crtcs_belong_to_the_member_they_drive<S, D, P>(
    group: TiledGroup<S, D, P>,
    crtc: u32,
)
    ensures
        group.member_of(crtc) == Some(0usize) <==> crtc == group.left().crtc,
        group.member_of(crtc) == Some(1usize) <==> crtc == group.right().crtc && crtc
            != group.left().crtc,
        group.member_of(crtc) is None <==> crtc != group.left().crtc && crtc != group.right().crtc,
        group.member_of(crtc) matches Some(member) ==> member < 2,
{
}

} // verus!
