//! Device properties of connectors, CRTCs and planes.

use vstd::prelude::*;

use crate::tile;
use crate::tile::TileInfo;

verus! {

/// One value of an enumeration property.
#[derive(Debug)]
pub struct EnumEntry {
    /// `None` where the name is not valid text.
    pub name: Option<String>,
    pub value: u64,
}

/// What kind of value a property takes.
#[derive(Debug)]
pub enum PropertyKind {
    Boolean,
    UnsignedRange,
    Enum(Vec<EnumEntry>),
    Bitmask,
    Blob,
    Other,
}

/// One property of an object, with its current value.
#[derive(Debug)]
pub struct PropertyInfo {
    pub handle: u32,
    /// `None` where the property could not be read or its name is not valid text.
    pub name: Option<String>,
    pub kind: PropertyKind,
    pub value: u64,
}

// ---------------------------------------------------------------------------------------------
// Lookup
// ---------------------------------------------------------------------------------------------

/// Whether an optional name is the wanted one.
pub open spec fn is_named(name: Option<String>, wanted: Seq<char>) -> bool {
    name matches Some(n) && n@ == wanted
}

/// The first of the first `n` properties with the given name.
pub open spec fn property_among(list: Seq<PropertyInfo>, name: Seq<char>, n: int) -> Option<int>
    decreases n,
{
    if n <= 0 {
        None
    } else {
        match property_among(list, name, n - 1) {
            Some(i) => Some(i),
            None => if is_named(list[n - 1].name, name) {
                Some(n - 1)
            } else {
                None
            },
        }
    }
}

/// The first property with the given name.
pub open spec fn property_named(list: Seq<PropertyInfo>, name: Seq<char>) -> Option<PropertyInfo> {
    match property_among(list, name, list.len() as int) {
        Some(i) => Some(list[i]),
        None => None,
    }
}

/// The handle of the first property with the given name.
pub open spec fn handle_named(list: Seq<PropertyInfo>, name: Seq<char>) -> Option<u32> {
    match property_named(list, name) {
        Some(info) => Some(info.handle),
        None => None,
    }
}

/// The value that the first of the first `n` entries with the given name stands for.
pub open spec fn entry_among(entries: Seq<EnumEntry>, name: Seq<char>, n: int) -> Option<u64>
    decreases n,
{
    if n <= 0 {
        None
    } else {
        match entry_among(entries, name, n - 1) {
            Some(v) => Some(v),
            None => if is_named(entries[n - 1].name, name) {
                Some(entries[n - 1].value)
            } else {
                None
            },
        }
    }
}

/// The handle of an enumeration property and the value that the named entry stands for, where both
/// exist.
pub open spec fn enum_setting(
    list: Seq<PropertyInfo>,
    property: Seq<char>,
    entry: Seq<char>,
) -> Option<(u32, u64)> {
    match property_named(list, property) {
        Some(info) => match info.kind {
            PropertyKind::Enum(entries) => match entry_among(
                entries@,
                entry,
                entries@.len() as int,
            ) {
                Some(value) => Some((info.handle, value)),
                None => None,
            },
            _ => None,
        },
        None => None,
    }
}

proof fn lemma_property_stays(list: Seq<PropertyInfo>, name: Seq<char>, k: int, n: int)
    requires
        0 <= k <= n,
        property_among(list, name, k) is Some,
    ensures
        property_among(list, name, n) == property_among(list, name, k),
    decreases n - k,
{
    if k < n {
        lemma_property_stays(list, name, k, n - 1);
    }
}

proof fn lemma_entry_stays(entries: Seq<EnumEntry>, name: Seq<char>, k: int, n: int)
    requires
        0 <= k <= n,
        entry_among(entries, name, k) is Some,
    ensures
        entry_among(entries, name, n) == entry_among(entries, name, k),
    decreases n - k,
{
    if k < n {
        lemma_entry_stays(entries, name, k, n - 1);
    }
}

fn has_name(name: &Option<String>, wanted: &String) -> (same: bool)
    ensures
        same == is_named(*name, wanted@),
{
    match name {
        Some(n) => *n == *wanted,
        None => false,
    }
}

/// Finds the first property with the given name.
pub fn find_drm_property<'a>(list: &'a [PropertyInfo], name: &str) -> (found: Option<
    &'a PropertyInfo,
>)
    ensures
        match found {
            Some(info) => property_named(list@, name@) == Some(*info),
            None => property_named(list@, name@) is None,
        },
{
    let wanted = name.to_owned();
    for i in 0..list.len()
        invariant
            wanted@ == name@,
            property_among(list@, name@, i as int) is None,
    {
        if has_name(&list[i].name, &wanted) {
            proof {
                assert(property_among(list@, name@, i + 1) == Some(i as int));
                lemma_property_stays(list@, name@, i + 1, list@.len() as int);
            }
            return Some(&list[i]);
        }
    }
    None
}

/// The current value of the property with the given handle.
pub open spec fn value_among(list: Seq<PropertyInfo>, handle: u32, n: int) -> Option<u64>
    decreases n,
{
    if n <= 0 {
        None
    } else {
        match value_among(list, handle, n - 1) {
            Some(v) => Some(v),
            None => if list[n - 1].handle == handle {
                Some(list[n - 1].value)
            } else {
                None
            },
        }
    }
}

proof fn lemma_value_stays(list: Seq<PropertyInfo>, handle: u32, k: int, n: int)
    requires
        0 <= k <= n,
        value_among(list, handle, k) is Some,
    ensures
        value_among(list, handle, n) == value_among(list, handle, k),
    decreases n - k,
{
    if k < n {
        lemma_value_stays(list, handle, k, n - 1);
    }
}

/// Reads the current value of the property with the given handle.
pub fn get_drm_property(list: &[PropertyInfo], handle: u32) -> (value: Option<u64>)
    ensures
        value == value_among(list@, handle, list@.len() as int),
{
    for i in 0..list.len()
        invariant
            value_among(list@, handle, i as int) is None,
    {
        if list[i].handle == handle {
            proof {
                assert(value_among(list@, handle, i + 1) == Some(list@[i as int].value));
                lemma_value_stays(list@, handle, i + 1, list@.len() as int);
            }
            return Some(list[i].value);
        }
    }
    None
}

/// Looks up a property handle by name.
pub fn prop_handle(list: &[PropertyInfo], name: &str) -> (handle: Option<u32>)
    ensures
        handle == handle_named(list@, name@),
{
    match find_drm_property(list, name) {
        Some(info) => Some(info.handle),
        None => None,
    }
}

/// Looks up an enum property value by name, e.g. `("Broadcast RGB", "Full")`.
///
/// There is a value only if both the property and the requested enum member exist.
pub fn enum_prop_value(list: &[PropertyInfo], prop_name: &str, value_name: &str) -> (setting: Option<
    (u32, u64),
>)
    ensures
        setting == enum_setting(list@, prop_name@, value_name@),
{
    let info = match find_drm_property(list, prop_name) {
        Some(info) => info,
        None => {
            return None;
        },
    };
    match &info.kind {
        PropertyKind::Enum(entries) => {
            let wanted = value_name.to_owned();
            for i in 0..entries.len()
                invariant
                    wanted@ == value_name@,
                    property_named(list@, prop_name@) == Some(*info),
                    info.kind == PropertyKind::Enum(*entries),
                    entry_among(entries@, value_name@, i as int) is None,
            {
                if has_name(&entries[i].name, &wanted) {
                    proof {
                        assert(entry_among(entries@, value_name@, i + 1) == Some(
                            entries@[i as int].value,
                        ));
                        lemma_entry_stays(
                            entries@,
                            value_name@,
                            i + 1,
                            entries@.len() as int,
                        );
                    }
                    return Some((info.handle, entries[i].value));
                }
            }
            None
        },
        _ => None,
    }
}

// ---------------------------------------------------------------------------------------------
// The TILE property
// ---------------------------------------------------------------------------------------------

/// The blob that holds a connector's tile topology.
pub open spec fn tile_blob(list: Seq<PropertyInfo>) -> Option<u64> {
    match property_named(list, "TILE"@) {
        Some(info) => if info.kind is Blob {
            Some(info.value)
        } else {
            None
        },
        None => None,
    }
}

/// The contents of the first of the first `n` blobs with the given id.
pub open spec fn blob_among(blobs: Seq<(u64, Vec<u8>)>, id: u64, n: int) -> Option<Seq<u8>>
    decreases n,
{
    if n <= 0 {
        None
    } else {
        match blob_among(blobs, id, n - 1) {
            Some(data) => Some(data),
            None => if blobs[n - 1].0 == id {
                Some(blobs[n - 1].1@)
            } else {
                None
            },
        }
    }
}

proof fn lemma_blob_stays(blobs: Seq<(u64, Vec<u8>)>, id: u64, k: int, n: int)
    requires
        0 <= k <= n,
        blob_among(blobs, id, k) is Some,
    ensures
        blob_among(blobs, id, n) == blob_among(blobs, id, k),
    decreases n - k,
{
    if k < n {
        lemma_blob_stays(blobs, id, k, n - 1);
    }
}

/// The blob that holds a connector's tile topology, if the kernel exposes one.
pub fn tile_blob_id(list: &[PropertyInfo]) -> (id: Option<u64>)
    ensures
        id == tile_blob(list@),
{
    let info = match find_drm_property(list, "TILE") {
        Some(info) => info,
        None => {
            return None;
        },
    };
    match info.kind {
        PropertyKind::Blob => Some(info.value),
        _ => None,
    }
}

/// Parses the `TILE` property of a connector, given its properties and the contents of the blobs
/// that could be read.
pub fn read_tile_info(list: &[PropertyInfo], blobs: &[(u64, Vec<u8>)]) -> (info: Option<TileInfo>)
    ensures
        info == (match tile_blob(list@) {
            Some(id) => match blob_among(blobs@, id, blobs@.len() as int) {
                Some(data) => tile::tile_of(data),
                None => None,
            },
            None => None,
        }),
{
    let id: u64 = match tile_blob_id(list) {
        Some(id) => id,
        None => {
            return None;
        },
    };
    for i in 0..blobs.len()
        invariant
            tile_blob(list@) == Some(id),
            blob_among(blobs@, id, i as int) is None,
    {
        if blobs[i].0 == id {
            proof {
                assert(blob_among(blobs@, id, i + 1) == Some(blobs@[i as int].1@));
                lemma_blob_stays(blobs@, id, i + 1, blobs@.len() as int);
            }
            return TileInfo::parse(blobs[i].1.as_slice());
        }
    }
    None
}

// ---------------------------------------------------------------------------------------------
// Members
// ---------------------------------------------------------------------------------------------

/// Cached property handles for one member, resolved once at group creation.
#[derive(Debug)]
pub struct MemberProps {
    pub conn_crtc_id: u32,
    pub crtc_mode_id: u32,
    pub crtc_active: u32,
    pub plane_fb_id: u32,
    pub plane_crtc_id: u32,
    pub plane_src_x: u32,
    pub plane_src_y: u32,
    pub plane_src_w: u32,
    pub plane_src_h: u32,
    pub plane_crtc_x: u32,
    pub plane_crtc_y: u32,
    pub plane_crtc_w: u32,
    pub plane_crtc_h: u32,
    /// Neutral-state properties (handle, raw value), applied on modeset commits.
    pub connector_neutral: Vec<(u32, u64)>,
    pub crtc_neutral: Vec<(u32, u64)>,
    pub plane_neutral: Vec<(u32, u64)>,
}

/// The contents of a member's cached properties.
pub struct MemberPropsView {
    pub conn_crtc_id: u32,
    pub crtc_mode_id: u32,
    pub crtc_active: u32,
    pub plane_fb_id: u32,
    pub plane_crtc_id: u32,
    pub plane_src_x: u32,
    pub plane_src_y: u32,
    pub plane_src_w: u32,
    pub plane_src_h: u32,
    pub plane_crtc_x: u32,
    pub plane_crtc_y: u32,
    pub plane_crtc_w: u32,
    pub plane_crtc_h: u32,
    pub connector_neutral: Seq<(u32, u64)>,
    pub crtc_neutral: Seq<(u32, u64)>,
    pub plane_neutral: Seq<(u32, u64)>,
}

impl View for MemberProps {
    type V = MemberPropsView;

    open spec fn view(&self) -> MemberPropsView {
        MemberPropsView {
            conn_crtc_id: self.conn_crtc_id,
            crtc_mode_id: self.crtc_mode_id,
            crtc_active: self.crtc_active,
            plane_fb_id: self.plane_fb_id,
            plane_crtc_id: self.plane_crtc_id,
            plane_src_x: self.plane_src_x,
            plane_src_y: self.plane_src_y,
            plane_src_w: self.plane_src_w,
            plane_src_h: self.plane_src_h,
            plane_crtc_x: self.plane_crtc_x,
            plane_crtc_y: self.plane_crtc_y,
            plane_crtc_w: self.plane_crtc_w,
            plane_crtc_h: self.plane_crtc_h,
            connector_neutral: self.connector_neutral@,
            crtc_neutral: self.crtc_neutral@,
            plane_neutral: self.plane_neutral@,
        }
    }
}

/// An optional setting as a list.
pub open spec fn listed(setting: Option<(u32, u64)>) -> Seq<(u32, u64)> {
    match setting {
        Some(s) => seq![s],
        None => Seq::empty(),
    }
}

/// The property set to the given value, where it exists.
pub open spec fn cleared(
    list: Seq<PropertyInfo>,
    name: Seq<char>,
    value: u64,
) -> Option<(u32, u64)> {
    match handle_named(list, name) {
        Some(handle) => Some((handle, value)),
        None => None,
    }
}

/// Neutral connector state: HDR metadata cleared, default colorspace, full-range RGB, no
/// scaling/underscan, HDCP undesired.
pub open spec fn neutral_connector(list: Seq<PropertyInfo>) -> Seq<(u32, u64)> {
    listed(cleared(list, "HDR_OUTPUT_METADATA"@, 0)) + listed(
        enum_setting(list, "Colorspace"@, "Default"@),
    ) + listed(enum_setting(list, "Broadcast RGB"@, "Full"@)) + listed(
        enum_setting(list, "Content Protection"@, "Undesired"@),
    ) + listed(enum_setting(list, "scaling mode"@, "None"@)) + listed(
        enum_setting(list, "underscan"@, "off"@),
    ) + listed(enum_setting(list, "content type"@, "No Data"@)) + listed(
        enum_setting(list, "HDCP Content Type"@, "HDCP Type0"@),
    ) + listed(enum_setting(list, "allm_mode"@, "Disabled"@))
}

/// Neutral CRTC state: VRR off, gamma/degamma/CTM cleared.
pub open spec fn neutral_crtc(list: Seq<PropertyInfo>) -> Seq<(u32, u64)> {
    listed(
        match property_named(list, "VRR_ENABLED"@) {
            Some(info) => if info.kind is Boolean {
                Some((info.handle, 0u64))
            } else {
                None
            },
            None => None,
        },
    ) + listed(cleared(list, "GAMMA_LUT"@, 0)) + listed(cleared(list, "DEGAMMA_LUT"@, 0)) + listed(
        cleared(list, "CTM"@, 0),
    )
}

/// Neutral plane state: full-frame damage, no rotation.
pub open spec fn neutral_plane(list: Seq<PropertyInfo>) -> Seq<(u32, u64)> {
    listed(cleared(list, "FB_DAMAGE_CLIPS"@, 0)) + listed(
        match property_named(list, "rotation"@) {
            Some(info) => if info.kind is Bitmask {
                Some((info.handle, 1u64))
            } else {
                None
            },
            None => None,
        },
    )
}

fn push_cleared(out: &mut Vec<(u32, u64)>, list: &[PropertyInfo], name: &str)
    ensures
        final(out)@ == old(out)@ + listed(cleared(list@, name@, 0)),
{
    if let Some(handle) = prop_handle(list, name) {
        out.push((handle, 0));
    }
    assert(out@ =~= old(out)@ + listed(cleared(list@, name@, 0)));
}

fn push_enum(out: &mut Vec<(u32, u64)>, list: &[PropertyInfo], property: &str, entry: &str)
    ensures
        final(out)@ == old(out)@ + listed(enum_setting(list@, property@, entry@)),
{
    if let Some(setting) = enum_prop_value(list, property, entry) {
        out.push(setting);
    }
    assert(out@ =~= old(out)@ + listed(enum_setting(list@, property@, entry@)));
}

/// Neutral connector state: HDR metadata cleared, default colorspace, full-range RGB, no
/// scaling/underscan, HDCP undesired.
///
/// Everything is optional; only properties the driver actually exposes are touched, and enum
/// values are resolved by name (raw zero is never assumed to mean neutral).
pub fn connector_neutral_props(list: &[PropertyInfo]) -> (out: Vec<(u32, u64)>)
    ensures
        out@ == neutral_connector(list@),
{
    let mut out: Vec<(u32, u64)> = Vec::new();
    push_cleared(&mut out, list, "HDR_OUTPUT_METADATA");
    push_enum(&mut out, list, "Colorspace", "Default");
    push_enum(&mut out, list, "Broadcast RGB", "Full");
    push_enum(&mut out, list, "Content Protection", "Undesired");
    push_enum(&mut out, list, "scaling mode", "None");
    push_enum(&mut out, list, "underscan", "off");
    push_enum(&mut out, list, "content type", "No Data");
    push_enum(&mut out, list, "HDCP Content Type", "HDCP Type0");
    push_enum(&mut out, list, "allm_mode", "Disabled");
    assert(out@ =~= neutral_connector(list@));
    out
}

/// Neutral CRTC state: VRR off, gamma/degamma/CTM cleared.
pub fn crtc_neutral_props(list: &[PropertyInfo]) -> (out: Vec<(u32, u64)>)
    ensures
        out@ == neutral_crtc(list@),
{
    let mut out: Vec<(u32, u64)> = Vec::new();
    if let Some(info) = find_drm_property(list, "VRR_ENABLED") {
        if let PropertyKind::Boolean = info.kind {
            out.push((info.handle, 0));
        }
    }
    push_cleared(&mut out, list, "GAMMA_LUT");
    push_cleared(&mut out, list, "DEGAMMA_LUT");
    push_cleared(&mut out, list, "CTM");
    assert(out@ =~= neutral_crtc(list@));
    out
}

/// Neutral plane state: full-frame damage, no rotation.
pub fn plane_neutral_props(list: &[PropertyInfo]) -> (out: Vec<(u32, u64)>)
    ensures
        out@ == neutral_plane(list@),
{
    let mut out: Vec<(u32, u64)> = Vec::new();
    push_cleared(&mut out, list, "FB_DAMAGE_CLIPS");
    if let Some(info) = find_drm_property(list, "rotation") {
        if let PropertyKind::Bitmask = info.kind {
            out.push((info.handle, 1));
        }
    }
    assert(out@ =~= neutral_plane(list@));
    out
}

/// A property that a member cannot do without.
#[derive(Debug, Clone, PartialEq, Eq)]
pub struct MissingProperty {
    pub name: String,
}

impl MissingProperty {
    /// The error in words.
    pub fn to_string(&self) -> (text: String)
        ensures
            text@ == "missing required property: "@ + self.name@,
    {
        let mut text = "missing required property: ".to_owned();
        text.append(self.name.as_str());
        text
    }
}

/// The properties that a member needs, each under the name that errors give it, with its handle
/// where the object has it.
pub open spec fn required_handles(
    conn: Seq<PropertyInfo>,
    crtc: Seq<PropertyInfo>,
    plane: Seq<PropertyInfo>,
) -> Seq<(Seq<char>, Option<u32>)> {
    seq![
        ("connector CRTC_ID"@, handle_named(conn, "CRTC_ID"@)),
        ("crtc MODE_ID"@, handle_named(crtc, "MODE_ID"@)),
        ("crtc ACTIVE"@, handle_named(crtc, "ACTIVE"@)),
        ("plane FB_ID"@, handle_named(plane, "FB_ID"@)),
        ("plane CRTC_ID"@, handle_named(plane, "CRTC_ID"@)),
        ("plane SRC_X"@, handle_named(plane, "SRC_X"@)),
        ("plane SRC_Y"@, handle_named(plane, "SRC_Y"@)),
        ("plane SRC_W"@, handle_named(plane, "SRC_W"@)),
        ("plane SRC_H"@, handle_named(plane, "SRC_H"@)),
        ("plane CRTC_X"@, handle_named(plane, "CRTC_X"@)),
        ("plane CRTC_Y"@, handle_named(plane, "CRTC_Y"@)),
        ("plane CRTC_W"@, handle_named(plane, "CRTC_W"@)),
        ("plane CRTC_H"@, handle_named(plane, "CRTC_H"@)),
    ]
}

/// The name of the first of the first `n` needed properties that does not exist.
pub open spec fn first_missing(required: Seq<(Seq<char>, Option<u32>)>, n: int) -> Option<Seq<char>>
    decreases n,
{
    if n <= 0 {
        None
    } else {
        match first_missing(required, n - 1) {
            Some(name) => Some(name),
            None => if required[n - 1].1 is None {
                Some(required[n - 1].0)
            } else {
                None
            },
        }
    }
}

/// The cached properties of a member, or the name of the first needed one that does not exist.
pub open spec fn member_props(
    conn: Seq<PropertyInfo>,
    crtc: Seq<PropertyInfo>,
    plane: Seq<PropertyInfo>,
) -> Result<MemberPropsView, Seq<char>> {
    let all = required_handles(conn, crtc, plane);
    match first_missing(all, all.len() as int) {
        Some(name) => Err(name),
        None => Ok(
            MemberPropsView {
                conn_crtc_id: all[0].1->0,
                crtc_mode_id: all[1].1->0,
                crtc_active: all[2].1->0,
                plane_fb_id: all[3].1->0,
                plane_crtc_id: all[4].1->0,
                plane_src_x: all[5].1->0,
                plane_src_y: all[6].1->0,
                plane_src_w: all[7].1->0,
                plane_src_h: all[8].1->0,
                plane_crtc_x: all[9].1->0,
                plane_crtc_y: all[10].1->0,
                plane_crtc_w: all[11].1->0,
                plane_crtc_h: all[12].1->0,
                connector_neutral: neutral_connector(conn),
                crtc_neutral: neutral_crtc(crtc),
                plane_neutral: neutral_plane(plane),
            },
        ),
    }
}

proof fn lemma_missing_stays(required: Seq<(Seq<char>, Option<u32>)>, k: int, n: int)
    requires
        0 <= k <= n,
        first_missing(required, k) is Some,
    ensures
        first_missing(required, n) == first_missing(required, k),
    decreases n - k,
{
    if k < n {
        lemma_missing_stays(required, k, n - 1);
    }
}

fn handle_at(required: &Vec<(&str, Option<u32>)>, i: usize) -> (handle: u32)
    requires
        i < required@.len(),
        required@[i as int].1 is Some,
    ensures
        handle == required@[i as int].1->0,
{
    match required[i].1 {
        Some(handle) => handle,
        None => 0,
    }
}

impl MemberProps {
    /// Resolves the properties of a member from those of its connector, CRTC and plane.
    pub fn new(conn: &[PropertyInfo], crtc: &[PropertyInfo], plane: &[PropertyInfo]) -> (props:
        Result<Self, MissingProperty>)
        ensures
            match props {
                Ok(p) => member_props(conn@, crtc@, plane@) == Ok::<MemberPropsView, Seq<char>>(p@),
                Err(e) => member_props(conn@, crtc@, plane@) == Err::<MemberPropsView, Seq<char>>(
                    e.name@,
                ),
            },
    {
        let mut required: Vec<(&str, Option<u32>)> = Vec::new();
        required.push(("connector CRTC_ID", prop_handle(conn, "CRTC_ID")));
        required.push(("crtc MODE_ID", prop_handle(crtc, "MODE_ID")));
        required.push(("crtc ACTIVE", prop_handle(crtc, "ACTIVE")));
        required.push(("plane FB_ID", prop_handle(plane, "FB_ID")));
        required.push(("plane CRTC_ID", prop_handle(plane, "CRTC_ID")));
        required.push(("plane SRC_X", prop_handle(plane, "SRC_X")));
        required.push(("plane SRC_Y", prop_handle(plane, "SRC_Y")));
        required.push(("plane SRC_W", prop_handle(plane, "SRC_W")));
        required.push(("plane SRC_H", prop_handle(plane, "SRC_H")));
        required.push(("plane CRTC_X", prop_handle(plane, "CRTC_X")));
        required.push(("plane CRTC_Y", prop_handle(plane, "CRTC_Y")));
        required.push(("plane CRTC_W", prop_handle(plane, "CRTC_W")));
        required.push(("plane CRTC_H", prop_handle(plane, "CRTC_H")));
        let ghost all = required_handles(conn@, crtc@, plane@);
        assert(required@.len() == 13);
        assert forall|i: int| 0 <= i < 13 implies (#[trigger] required@[i]).0@ == all[i].0
            && required@[i].1 == all[i].1 by {}
        for i in 0..13
            invariant
                all == required_handles(conn@, crtc@, plane@),
                all.len() == 13,
                required@.len() == 13,
                forall|k: int|
                    0 <= k < 13 ==> (#[trigger] required@[k]).0@ == all[k].0 && required@[k].1
                        == all[k].1,
                forall|k: int| 0 <= k < i ==> (#[trigger] all[k]).1 is Some,
                first_missing(all, i as int) is None,
        {
            assert(required@[i as int].1 == all[i as int].1);
            if required[i].1.is_none() {
                proof {
                    assert(first_missing(all, i + 1) == Some(all[i as int].0));
                    lemma_missing_stays(all, i + 1, 13);
                }
                return Err(MissingProperty { name: required[i].0.to_owned() });
            }
        }
        assert forall|k: int| 0 <= k < 13 implies (#[trigger] required@[k]).1 is Some by {
            assert(all[k].1 is Some);
        }
        Ok(
            MemberProps {
                conn_crtc_id: handle_at(&required, 0),
                crtc_mode_id: handle_at(&required, 1),
                crtc_active: handle_at(&required, 2),
                plane_fb_id: handle_at(&required, 3),
                plane_crtc_id: handle_at(&required, 4),
                plane_src_x: handle_at(&required, 5),
                plane_src_y: handle_at(&required, 6),
                plane_src_w: handle_at(&required, 7),
                plane_src_h: handle_at(&required, 8),
                plane_crtc_x: handle_at(&required, 9),
                plane_crtc_y: handle_at(&required, 10),
                plane_crtc_w: handle_at(&required, 11),
                plane_crtc_h: handle_at(&required, 12),
                connector_neutral: connector_neutral_props(conn),
                crtc_neutral: crtc_neutral_props(crtc),
                plane_neutral: plane_neutral_props(plane),
            },
        )
    }

    /// A copy with the same contents.
    pub fn copy(&self) -> (copy: MemberProps)
        ensures
            copy@ == self@,
    {
        MemberProps {
            conn_crtc_id: self.conn_crtc_id,
            crtc_mode_id: self.crtc_mode_id,
            crtc_active: self.crtc_active,
            plane_fb_id: self.plane_fb_id,
            plane_crtc_id: self.plane_crtc_id,
            plane_src_x: self.plane_src_x,
            plane_src_y: self.plane_src_y,
            plane_src_w: self.plane_src_w,
            plane_src_h: self.plane_src_h,
            plane_crtc_x: self.plane_crtc_x,
            plane_crtc_y: self.plane_crtc_y,
            plane_crtc_w: self.plane_crtc_w,
            plane_crtc_h: self.plane_crtc_h,
            connector_neutral: copy_settings(&self.connector_neutral),
            crtc_neutral: copy_settings(&self.crtc_neutral),
            plane_neutral: copy_settings(&self.plane_neutral),
        }
    }
}

fn copy_settings(settings: &Vec<(u32, u64)>) -> (copy: Vec<(u32, u64)>)
    ensures
        copy@ == settings@,
{
    let mut copy: Vec<(u32, u64)> = Vec::new();
    for i in 0..settings.len()
        invariant
            copy@ == settings@.take(i as int),
    {
        copy.push(settings[i]);
        assert(copy@ =~= settings@.take(i + 1));
    }
    assert(settings@.take(settings@.len() as int) =~= settings@);
    copy
}

fn same_settings(a: &Vec<(u32, u64)>, b: &Vec<(u32, u64)>) -> (same: bool)
    ensures
        same == (a@ == b@),
{
    if a.len() != b.len() {
        return false;
    }
    for i in 0..a.len()
        invariant
            a@.len() == b@.len(),
            forall|k: int| 0 <= k < i ==> a@[k] == b@[k],
    {
        if a[i].0 != b[i].0 || a[i].1 != b[i].1 {
            return false;
        }
    }
    assert(a@ =~= b@);
    true
}

/// Whether two members' cached properties are the same.
pub fn same_member_props(a: &MemberProps, b: &MemberProps) -> (same: bool)
    ensures
        same == (a@ == b@),
{
    a.conn_crtc_id == b.conn_crtc_id
        && a.crtc_mode_id == b.crtc_mode_id
        && a.crtc_active == b.crtc_active
        && a.plane_fb_id == b.plane_fb_id
        && a.plane_crtc_id == b.plane_crtc_id
        && a.plane_src_x == b.plane_src_x
        && a.plane_src_y == b.plane_src_y
        && a.plane_src_w == b.plane_src_w
        && a.plane_src_h == b.plane_src_h
        && a.plane_crtc_x == b.plane_crtc_x
        && a.plane_crtc_y == b.plane_crtc_y
        && a.plane_crtc_w == b.plane_crtc_w
        && a.plane_crtc_h == b.plane_crtc_h
        && same_settings(&a.connector_neutral, &b.connector_neutral) && same_settings(
        &a.crtc_neutral,
        &b.crtc_neutral,
    ) && same_settings(&a.plane_neutral, &b.plane_neutral)
}

// ---------------------------------------------------------------------------------------------
// Valid handles
// ---------------------------------------------------------------------------------------------

/// Whether no property has handle zero, which the kernel never hands out.
pub open spec fn handles_valid(list: Seq<PropertyInfo>) -> bool {
    forall|i: int| 0 <= i < list.len() ==> (#[trigger] list[i]).handle != 0
}

/// Whether no setting is for handle zero.
pub open spec fn settings_valid(settings: Seq<(u32, u64)>) -> bool {
    forall|i: int| 0 <= i < settings.len() ==> (#[trigger] settings[i]).0 != 0
}

impl MemberPropsView {
    /// Whether every handle is one that the kernel may hand out.
    pub open spec fn wf(self) -> bool {
        &&& self.conn_crtc_id != 0
        &&& self.crtc_mode_id != 0
        &&& self.crtc_active != 0
        &&& self.plane_fb_id != 0
        &&& self.plane_crtc_id != 0
        &&& self.plane_src_x != 0
        &&& self.plane_src_y != 0
        &&& self.plane_src_w != 0
        &&& self.plane_src_h != 0
        &&& self.plane_crtc_x != 0
        &&& self.plane_crtc_y != 0
        &&& self.plane_crtc_w != 0
        &&& self.plane_crtc_h != 0
        &&& settings_valid(self.connector_neutral)
        &&& settings_valid(self.crtc_neutral)
        &&& settings_valid(self.plane_neutral)
    }
}

/// Whether no setting is for handle zero.
fn all_valid(settings: &Vec<(u32, u64)>) -> (yes: bool)
    ensures
        yes == settings_valid(settings@),
{
    for i in 0..settings.len()
        invariant
            forall|k: int| 0 <= k < i ==> (#[trigger] settings@[k]).0 != 0,
    {
        if settings[i].0 == 0 {
            assert(settings@[i as int].0 == 0);
            return false;
        }
    }
    true
}

impl MemberProps {
    /// Whether every handle is one that the kernel may hand out.
    pub fn is_valid(&self) -> (yes: bool)
        ensures
            yes == self@.wf(),
    {
        self.conn_crtc_id != 0 && self.crtc_mode_id != 0 && self.crtc_active != 0
            && self.plane_fb_id != 0 && self.plane_crtc_id != 0 && self.plane_src_x != 0
            && self.plane_src_y != 0 && self.plane_src_w != 0 && self.plane_src_h != 0
            && self.plane_crtc_x != 0 && self.plane_crtc_y != 0 && self.plane_crtc_w != 0
            && self.plane_crtc_h != 0 && all_valid(&self.connector_neutral) && all_valid(
            &self.crtc_neutral,
        ) && all_valid(&self.plane_neutral)
    }
}

proof fn lemma_property_in_list(list: Seq<PropertyInfo>, name: Seq<char>, n: int)
    requires
        0 <= n <= list.len(),
    ensures
        property_among(list, name, n) matches Some(i) ==> 0 <= i < n,
    decreases n,
{
    if n > 0 {
        lemma_property_in_list(list, name, n - 1);
    }
}

proof fn lemma_handle_valid(list: Seq<PropertyInfo>, name: Seq<char>)
    requires
        handles_valid(list),
    ensures
        property_named(list, name) matches Some(info) ==> info.handle != 0,
{
    lemma_property_in_list(list, name, list.len() as int);
}

proof fn lemma_listed_valid(settings: Seq<(u32, u64)>, setting: Option<(u32, u64)>)
    requires
        settings_valid(settings),
        setting matches Some(s) ==> s.0 != 0,
    ensures
        settings_valid(settings + listed(setting)),
        settings_valid(listed(setting)),
{
}

/// Properties resolved from valid handles are valid.
pub proof fn law_member_props_keep_valid_handles(
    conn: Seq<PropertyInfo>,
    crtc: Seq<PropertyInfo>,
    plane: Seq<PropertyInfo>,
)
    requires
        handles_valid(conn),
        handles_valid(crtc),
        handles_valid(plane),
    ensures
        member_props(conn, crtc, plane) matches Ok(props) ==> props.wf(),
{
    if let Ok(props) = member_props(conn, crtc, plane) {
        let all = required_handles(conn, crtc, plane);
        lemma_all_found(all, 13);
        assert forall|i: int| 0 <= i < 13 implies (#[trigger] all[i]).1->0 != 0 by {
            assert(all[i].1 is Some);
            lemma_handle_valid(conn, "CRTC_ID"@);
            lemma_handle_valid(crtc, "MODE_ID"@);
            lemma_handle_valid(crtc, "ACTIVE"@);
            lemma_handle_valid(plane, "FB_ID"@);
            lemma_handle_valid(plane, "CRTC_ID"@);
            lemma_handle_valid(plane, "SRC_X"@);
            lemma_handle_valid(plane, "SRC_Y"@);
            lemma_handle_valid(plane, "SRC_W"@);
            lemma_handle_valid(plane, "SRC_H"@);
            lemma_handle_valid(plane, "CRTC_X"@);
            lemma_handle_valid(plane, "CRTC_Y"@);
            lemma_handle_valid(plane, "CRTC_W"@);
            lemma_handle_valid(plane, "CRTC_H"@);
        }
        assert(all[0].1->0 != 0);
        assert(all[1].1->0 != 0);
        assert(all[2].1->0 != 0);
        assert(all[3].1->0 != 0);
        assert(all[4].1->0 != 0);
        assert(all[5].1->0 != 0);
        assert(all[6].1->0 != 0);
        assert(all[7].1->0 != 0);
        assert(all[8].1->0 != 0);
        assert(all[9].1->0 != 0);
        assert(all[10].1->0 != 0);
        assert(all[11].1->0 != 0);
        assert(all[12].1->0 != 0);
        lemma_neutral_valid(conn, crtc, plane);
    }
}

proof fn lemma_all_found(required: Seq<(Seq<char>, Option<u32>)>, n: int)
    requires
        0 <= n <= required.len(),
        first_missing(required, n) is None,
    ensures
        forall|i: int| 0 <= i < n ==> (#[trigger] required[i]).1 is Some,
    decreases n,
{
    if n > 0 {
        lemma_all_found(required, n - 1);
    }
}

proof fn lemma_neutral_connector_valid(conn: Seq<PropertyInfo>)
    requires
        handles_valid(conn),
    ensures
        settings_valid(neutral_connector(conn)),
{
    lemma_handle_valid(conn, "HDR_OUTPUT_METADATA"@);
    let first = cleared(conn, "HDR_OUTPUT_METADATA"@, 0);
    lemma_listed_valid(Seq::empty(), first);
    let s0 = listed(first);
    lemma_handle_valid(conn, "Colorspace"@);
    lemma_listed_valid(s0, enum_setting(conn, "Colorspace"@, "Default"@));
    let s1 = s0 + listed(enum_setting(conn, "Colorspace"@, "Default"@));
    lemma_handle_valid(conn, "Broadcast RGB"@);
    lemma_listed_valid(s1, enum_setting(conn, "Broadcast RGB"@, "Full"@));
    let s2 = s1 + listed(enum_setting(conn, "Broadcast RGB"@, "Full"@));
    lemma_handle_valid(conn, "Content Protection"@);
    lemma_listed_valid(s2, enum_setting(conn, "Content Protection"@, "Undesired"@));
    let s3 = s2 + listed(enum_setting(conn, "Content Protection"@, "Undesired"@));
    lemma_handle_valid(conn, "scaling mode"@);
    lemma_listed_valid(s3, enum_setting(conn, "scaling mode"@, "None"@));
    let s4 = s3 + listed(enum_setting(conn, "scaling mode"@, "None"@));
    lemma_handle_valid(conn, "underscan"@);
    lemma_listed_valid(s4, enum_setting(conn, "underscan"@, "off"@));
    let s5 = s4 + listed(enum_setting(conn, "underscan"@, "off"@));
    lemma_handle_valid(conn, "content type"@);
    lemma_listed_valid(s5, enum_setting(conn, "content type"@, "No Data"@));
    let s6 = s5 + listed(enum_setting(conn, "content type"@, "No Data"@));
    lemma_handle_valid(conn, "HDCP Content Type"@);
    lemma_listed_valid(s6, enum_setting(conn, "HDCP Content Type"@, "HDCP Type0"@));
    let s7 = s6 + listed(enum_setting(conn, "HDCP Content Type"@, "HDCP Type0"@));
    lemma_handle_valid(conn, "allm_mode"@);
    lemma_listed_valid(s7, enum_setting(conn, "allm_mode"@, "Disabled"@));
    let s8 = s7 + listed(enum_setting(conn, "allm_mode"@, "Disabled"@));
    assert(neutral_connector(conn) == s8);
}

proof fn lemma_neutral_valid(
    conn: Seq<PropertyInfo>,
    crtc: Seq<PropertyInfo>,
    plane: Seq<PropertyInfo>,
)
    requires
        handles_valid(conn),
        handles_valid(crtc),
        handles_valid(plane),
    ensures
        settings_valid(neutral_connector(conn)),
        settings_valid(neutral_crtc(crtc)),
        settings_valid(neutral_plane(plane)),
{
    lemma_neutral_connector_valid(conn);
    lemma_handle_valid(crtc, "VRR_ENABLED"@);
    lemma_handle_valid(crtc, "GAMMA_LUT"@);
    lemma_handle_valid(crtc, "DEGAMMA_LUT"@);
    lemma_handle_valid(crtc, "CTM"@);
    lemma_handle_valid(plane, "FB_DAMAGE_CLIPS"@);
    lemma_handle_valid(plane, "rotation"@);
}

// ---------------------------------------------------------------------------------------------
// Laws
// ---------------------------------------------------------------------------------------------

/// Whether property `i` is the first of its list with the given name.
pub open spec fn first_of_name(list: Seq<PropertyInfo>, i: int, name: Seq<char>) -> bool {
    &&& 0 <= i < list.len()
    &&& list[i].name matches Some(n) && n@ == name
    &&& forall|j: int| 0 <= j < i ==> !((#[trigger] list[j]).name matches Some(n) && n@ == name)
}

/// Whether entry `k` is the first of an enumeration with the given name.
pub open spec fn first_entry_of_name(entries: Seq<EnumEntry>, k: int, name: Seq<char>) -> bool {
    &&& 0 <= k < entries.len()
    &&& entries[k].name matches Some(n) && n@ == name
    &&& forall|j: int| 0 <= j < k ==> !((#[trigger] entries[j]).name matches Some(n) && n@ == name)
}

/// Whether some property of the list has the given name.
pub open spec fn has_property(list: Seq<PropertyInfo>, name: Seq<char>) -> bool {
    exists|i: int| 0 <= i < list.len() && ((#[trigger] list[i]).name matches Some(n) && n@ == name)
}

/// Whether no two properties of the list have the same handle.
pub open spec fn handles_distinct(list: Seq<PropertyInfo>) -> bool {
    forall|i: int, j: int|
        0 <= i < j < list.len() ==> (#[trigger] list[i]).handle != (#[trigger] list[j]).handle
}

/// Whether the settings give the property with the given handle this value and no other.
pub open spec fn sets_only(settings: Seq<(u32, u64)>, handle: u32, value: u64) -> bool {
    &&& settings.contains((handle, value))
    &&& forall|other: u64| #[trigger] settings.contains((handle, other)) ==> other == value
}

/// Whether the settings put the named enumeration property of the list, where it has the named
/// entry, to the value of that entry and to no other.
pub open spec fn resets_to(
    list: Seq<PropertyInfo>,
    settings: Seq<(u32, u64)>,
    property: Seq<char>,
    entry: Seq<char>,
) -> bool {
    forall|i: int, entries: Vec<EnumEntry>, k: int|
        #[trigger] first_of_name(list, i, property) && list[i].kind == PropertyKind::Enum(entries)
            && #[trigger] first_entry_of_name(entries@, k, entry) ==> sets_only(
            settings,
            list[i].handle,
            entries@[k].value,
        )
}

/// Whether the settings put the named property of the list, whatever its kind, to the value.
pub open spec fn clears_to(
    list: Seq<PropertyInfo>,
    settings: Seq<(u32, u64)>,
    property: Seq<char>,
    value: u64,
) -> bool {
    forall|i: int| #[trigger]
        first_of_name(list, i, property) ==> sets_only(settings, list[i].handle, value)
}

/// A property is found by its name: the first that has it, and none exactly when no property has
/// it.
pub proof fn law_properties_are_found_by_name(list: Seq<PropertyInfo>, name: Seq<char>)
    ensures
        property_named(list, name) is Some <==> has_property(list, name),
        forall|i: int| #[trigger]
            first_of_name(list, i, name) ==> property_named(list, name) == Some(list[i])
                && handle_named(list, name) == Some(list[i].handle),
        property_named(list, name) matches Some(info) ==> exists|i: int| #[trigger]
            first_of_name(list, i, name) && list[i] == info,
{
    let n = list.len() as int;
    lemma_property_first(list, name, n);
    assert forall|i: int| #[trigger] first_of_name(list, i, name) implies property_named(list, name)
        == Some(list[i]) by {
        assert(is_named(list[i].name, name));
        match property_among(list, name, n) {
            Some(f) => {
                if f < i {
                    assert(!(list[f].name matches Some(x) && x@ == name));
                } else if i < f {
                    assert(!is_named(list[i].name, name));
                }
            },
            None => {
                assert(!is_named(list[i].name, name));
            },
        }
    }
    match property_among(list, name, n) {
        Some(f) => {
            assert(first_of_name(list, f, name));
        },
        None => {
            if has_property(list, name) {
                let i = choose|i: int|
                    0 <= i < list.len() && ((#[trigger] list[i]).name matches Some(x) && x@
                        == name);
                assert(!is_named(list[i].name, name));
            }
        },
    }
}

proof fn lemma_property_first(list: Seq<PropertyInfo>, name: Seq<char>, n: int)
    requires
        0 <= n <= list.len(),
    ensures
        match property_among(list, name, n) {
            Some(f) => 0 <= f < n && is_named(list[f].name, name) && forall|j: int|
                0 <= j < f ==> !is_named((#[trigger] list[j]).name, name),
            None => forall|j: int| 0 <= j < n ==> !is_named((#[trigger] list[j]).name, name),
        },
    decreases n,
{
    if n > 0 {
        lemma_property_first(list, name, n - 1);
    }
}

proof fn lemma_entry_first(entries: Seq<EnumEntry>, name: Seq<char>, n: int)
    requires
        0 <= n <= entries.len(),
    ensures
        match entry_among(entries, name, n) {
            Some(v) => exists|f: int|
                0 <= f < n && is_named((#[trigger] entries[f]).name, name) && entries[f].value == v
                    && forall|j: int| 0 <= j < f ==> !is_named((#[trigger] entries[j]).name, name),
            None => forall|j: int| 0 <= j < n ==> !is_named((#[trigger] entries[j]).name, name),
        },
    decreases n,
{
    if n > 0 {
        lemma_entry_first(entries, name, n - 1);
        if entry_among(entries, name, n - 1) is None && is_named(entries[n - 1].name, name) {
            assert(entries[n - 1].value == entry_among(entries, name, n)->0);
        }
    }
}

/// A value of an enumeration property is found by the names of the property and of the entry; there
/// is one exactly when the first property of that name is an enumeration with such an entry.
pub proof fn law_enumeration_values_are_found_by_name(
    list: Seq<PropertyInfo>,
    property: Seq<char>,
    entry: Seq<char>,
)
    ensures
        forall|i: int, entries: Vec<EnumEntry>, k: int|
            #[trigger] first_of_name(list, i, property) && list[i].kind == PropertyKind::Enum(
                entries,
            ) && #[trigger] first_entry_of_name(entries@, k, entry) ==> enum_setting(
                list,
                property,
                entry,
            ) == Some((list[i].handle, entries@[k].value)),
        enum_setting(list, property, entry) matches Some(s) ==> exists|
            i: int,
            entries: Vec<EnumEntry>,
            k: int,
        |
            {
                &&& #[trigger] first_of_name(list, i, property)
                &&& list[i].kind == PropertyKind::Enum(entries)
                &&& #[trigger] first_entry_of_name(entries@, k, entry)
                &&& s == (list[i].handle, entries@[k].value)
            },
{
    law_properties_are_found_by_name(list, property);
    assert forall|i: int, entries: Vec<EnumEntry>, k: int|
        #[trigger] first_of_name(list, i, property) && list[i].kind == PropertyKind::Enum(entries)
            && #[trigger] first_entry_of_name(entries@, k, entry) implies enum_setting(
        list,
        property,
        entry,
    ) == Some((list[i].handle, entries@[k].value)) by {
        let n = entries@.len() as int;
        lemma_entry_first(entries@, entry, n);
        assert(is_named(entries@[k].name, entry));
        match entry_among(entries@, entry, n) {
            Some(v) => {
                let f = choose|f: int|
                    0 <= f < n && is_named((#[trigger] entries@[f]).name, entry) && entries@[f].value
                        == v && forall|j: int|
                        0 <= j < f ==> !is_named((#[trigger] entries@[j]).name, entry);
                if f < k {
                    assert(!(entries@[f].name matches Some(x) && x@ == entry));
                }
            },
            None => {},
        }
    }
    if let Some(s) = enum_setting(list, property, entry) {
        let info = property_named(list, property)->0;
        let i = choose|i: int| #[trigger] first_of_name(list, i, property) && list[i] == info;
        if let PropertyKind::Enum(entries) = info.kind {
            let n = entries@.len() as int;
            lemma_entry_first(entries@, entry, n);
            let f = choose|f: int|
                0 <= f < n && is_named((#[trigger] entries@[f]).name, entry) && entries@[f].value
                    == s.1 && forall|j: int|
                    0 <= j < f ==> !is_named((#[trigger] entries@[j]).name, entry);
            assert forall|j: int| 0 <= j < f implies !((#[trigger] entries@[j]).name matches Some(
                x,
            ) && x@ == entry) by {
                assert(!is_named(entries@[j].name, entry));
            }
            assert(first_entry_of_name(entries@, f, entry));
        }
    }
}

/// Named settings that are each for a property of their own name.
spec fn sourced(list: Seq<PropertyInfo>, sources: Seq<(Seq<char>, Option<(u32, u64)>)>) -> bool {
    &&& forall|k: int, l: int|
        0 <= k < l < sources.len() ==> (#[trigger] sources[k]).0 != (#[trigger] sources[l]).0
    &&& forall|k: int|
        0 <= k < sources.len() ==> ((#[trigger] sources[k]).1 matches Some(s) ==> (
        property_named(list, sources[k].0) matches Some(info) && info.handle == s.0))
}

spec fn gathered(sources: Seq<(Seq<char>, Option<(u32, u64)>)>, settings: Seq<(u32, u64)>) -> bool {
    &&& forall|k: int|
        0 <= k < sources.len() ==> ((#[trigger] sources[k]).1 matches Some(s) ==> settings.contains(
            s,
        ))
    &&& forall|s: (u32, u64)| #[trigger]
        settings.contains(s) ==> exists|k: int|
            0 <= k < sources.len() && (#[trigger] sources[k]).1 == Some(s)
}

proof fn lemma_gathered_next(
    sources: Seq<(Seq<char>, Option<(u32, u64)>)>,
    settings: Seq<(u32, u64)>,
    name: Seq<char>,
    setting: Option<(u32, u64)>,
)
    requires
        gathered(sources, settings),
    ensures
        gathered(sources.push((name, setting)), settings + listed(setting)),
{
    let more = sources.push((name, setting));
    let all = settings + listed(setting);
    assert forall|k: int| 0 <= k < more.len() implies ((#[trigger] more[k]).1 matches Some(s)
        ==> all.contains(s)) by {
        if let Some(s) = more[k].1 {
            if k < sources.len() {
                assert(more[k] == sources[k]);
                assert(settings.contains(s));
                let i = choose|i: int| 0 <= i < settings.len() && settings[i] == s;
                assert(all[i] == s);
            } else {
                assert(all[settings.len() as int] == s);
            }
        }
    }
    assert forall|s: (u32, u64)| #[trigger] all.contains(s) implies exists|k: int|
        0 <= k < more.len() && (#[trigger] more[k]).1 == Some(s) by {
        let i = choose|i: int| 0 <= i < all.len() && all[i] == s;
        if i < settings.len() {
            assert(settings[i] == s);
            assert(settings.contains(s));
            let k = choose|k: int| 0 <= k < sources.len() && (#[trigger] sources[k]).1 == Some(s);
            assert(more[k] == sources[k]);
        } else {
            assert(more[sources.len() as int].1 == Some(s));
        }
    }
}

proof fn lemma_gathered_sets_only(
    list: Seq<PropertyInfo>,
    sources: Seq<(Seq<char>, Option<(u32, u64)>)>,
    settings: Seq<(u32, u64)>,
    k: int,
    handle: u32,
    value: u64,
)
    requires
        handles_distinct(list),
        sourced(list, sources),
        gathered(sources, settings),
        0 <= k < sources.len(),
        sources[k].1 == Some((handle, value)),
    ensures
        sets_only(settings, handle, value),
{
    assert forall|other: u64| #[trigger] settings.contains((handle, other)) implies other
        == value by {
        let l = choose|l: int|
            0 <= l < sources.len() && (#[trigger] sources[l]).1 == Some((handle, other));
        law_properties_are_found_by_name(list, sources[k].0);
        law_properties_are_found_by_name(list, sources[l].0);
        let a = property_named(list, sources[k].0)->0;
        let b = property_named(list, sources[l].0)->0;
        let i = choose|i: int| #[trigger] first_of_name(list, i, sources[k].0) && list[i] == a;
        let j = choose|j: int| #[trigger] first_of_name(list, j, sources[l].0) && list[j] == b;
        assert(list[i].handle == list[j].handle);
        assert(i == j);
        assert(sources[k].0 == sources[l].0);
    }
}

proof fn lemma_gathered_names(
    list: Seq<PropertyInfo>,
    sources: Seq<(Seq<char>, Option<(u32, u64)>)>,
    settings: Seq<(u32, u64)>,
    setting: (u32, u64),
) -> (k: int)
    requires
        sourced(list, sources),
        gathered(sources, settings),
        settings.contains(setting),
    ensures
        0 <= k < sources.len(),
        sources[k].1 == Some(setting),
        exists|i: int| #[trigger]
            first_of_name(list, i, sources[k].0) && list[i].handle == setting.0,
{
    let k = choose|k: int| 0 <= k < sources.len() && (#[trigger] sources[k]).1 == Some(setting);
    law_properties_are_found_by_name(list, sources[k].0);
    k
}

spec fn connector_sources(list: Seq<PropertyInfo>) -> Seq<(Seq<char>, Option<(u32, u64)>)> {
    Seq::<(Seq<char>, Option<(u32, u64)>)>::empty().push(
        ("HDR_OUTPUT_METADATA"@, cleared(list, "HDR_OUTPUT_METADATA"@, 0)),
    ).push(
        ("Colorspace"@, enum_setting(list, "Colorspace"@, "Default"@)),
    ).push(
        ("Broadcast RGB"@, enum_setting(list, "Broadcast RGB"@, "Full"@)),
    ).push(
        ("Content Protection"@, enum_setting(list, "Content Protection"@, "Undesired"@)),
    ).push(
        ("scaling mode"@, enum_setting(list, "scaling mode"@, "None"@)),
    ).push(
        ("underscan"@, enum_setting(list, "underscan"@, "off"@)),
    ).push(
        ("content type"@, enum_setting(list, "content type"@, "No Data"@)),
    ).push(
        ("HDCP Content Type"@, enum_setting(list, "HDCP Content Type"@, "HDCP Type0"@)),
    ).push(
        ("allm_mode"@, enum_setting(list, "allm_mode"@, "Disabled"@)),
    )
}

proof fn lemma_connector_sources(list: Seq<PropertyInfo>)
    ensures
        sourced(list, connector_sources(list)),
        gathered(connector_sources(list), neutral_connector(list)),
{
    reveal_strlit("HDR_OUTPUT_METADATA");
    reveal_strlit("Colorspace");
    reveal_strlit("Broadcast RGB");
    reveal_strlit("Content Protection");
    reveal_strlit("scaling mode");
    reveal_strlit("underscan");
    reveal_strlit("content type");
    reveal_strlit("HDCP Content Type");
    reveal_strlit("allm_mode");
    let s0 = Seq::<(Seq<char>, Option<(u32, u64)>)>::empty();
    let t0 = Seq::<(u32, u64)>::empty();
    assert(gathered(s0, t0));
    let o0 = cleared(list, "HDR_OUTPUT_METADATA"@, 0);
    lemma_gathered_next(s0, t0, "HDR_OUTPUT_METADATA"@, o0);
    let s1 = s0.push(("HDR_OUTPUT_METADATA"@, o0));
    let t1 = t0 + listed(o0);
    let o1 = enum_setting(list, "Colorspace"@, "Default"@);
    lemma_gathered_next(s1, t1, "Colorspace"@, o1);
    let s2 = s1.push(("Colorspace"@, o1));
    let t2 = t1 + listed(o1);
    let o2 = enum_setting(list, "Broadcast RGB"@, "Full"@);
    lemma_gathered_next(s2, t2, "Broadcast RGB"@, o2);
    let s3 = s2.push(("Broadcast RGB"@, o2));
    let t3 = t2 + listed(o2);
    let o3 = enum_setting(list, "Content Protection"@, "Undesired"@);
    lemma_gathered_next(s3, t3, "Content Protection"@, o3);
    let s4 = s3.push(("Content Protection"@, o3));
    let t4 = t3 + listed(o3);
    let o4 = enum_setting(list, "scaling mode"@, "None"@);
    lemma_gathered_next(s4, t4, "scaling mode"@, o4);
    let s5 = s4.push(("scaling mode"@, o4));
    let t5 = t4 + listed(o4);
    let o5 = enum_setting(list, "underscan"@, "off"@);
    lemma_gathered_next(s5, t5, "underscan"@, o5);
    let s6 = s5.push(("underscan"@, o5));
    let t6 = t5 + listed(o5);
    let o6 = enum_setting(list, "content type"@, "No Data"@);
    lemma_gathered_next(s6, t6, "content type"@, o6);
    let s7 = s6.push(("content type"@, o6));
    let t7 = t6 + listed(o6);
    let o7 = enum_setting(list, "HDCP Content Type"@, "HDCP Type0"@);
    lemma_gathered_next(s7, t7, "HDCP Content Type"@, o7);
    let s8 = s7.push(("HDCP Content Type"@, o7));
    let t8 = t7 + listed(o7);
    let o8 = enum_setting(list, "allm_mode"@, "Disabled"@);
    lemma_gathered_next(s8, t8, "allm_mode"@, o8);
    let s9 = s8.push(("allm_mode"@, o8));
    let t9 = t8 + listed(o8);
    assert(neutral_connector(list) =~= t9);
    assert(connector_sources(list) == s9);
    assert forall|k: int, l: int| 0 <= k < l < s9.len() implies (#[trigger] s9[k]).0 != (
    #[trigger] s9[l]).0 by {
        assert("HDR_OUTPUT_METADATA"@.len() != "Colorspace"@.len());
        assert("HDR_OUTPUT_METADATA"@.len() != "Broadcast RGB"@.len());
        assert("HDR_OUTPUT_METADATA"@.len() != "Content Protection"@.len());
        assert("HDR_OUTPUT_METADATA"@.len() != "scaling mode"@.len());
        assert("HDR_OUTPUT_METADATA"@.len() != "underscan"@.len());
        assert("HDR_OUTPUT_METADATA"@.len() != "content type"@.len());
        assert("HDR_OUTPUT_METADATA"@.len() != "HDCP Content Type"@.len());
        assert("HDR_OUTPUT_METADATA"@.len() != "allm_mode"@.len());
        assert("Colorspace"@.len() != "Broadcast RGB"@.len());
        assert("Colorspace"@.len() != "Content Protection"@.len());
        assert("Colorspace"@.len() != "scaling mode"@.len());
        assert("Colorspace"@.len() != "underscan"@.len());
        assert("Colorspace"@.len() != "content type"@.len());
        assert("Colorspace"@.len() != "HDCP Content Type"@.len());
        assert("Colorspace"@.len() != "allm_mode"@.len());
        assert("Broadcast RGB"@.len() != "Content Protection"@.len());
        assert("Broadcast RGB"@.len() != "scaling mode"@.len());
        assert("Broadcast RGB"@.len() != "underscan"@.len());
        assert("Broadcast RGB"@.len() != "content type"@.len());
        assert("Broadcast RGB"@.len() != "HDCP Content Type"@.len());
        assert("Broadcast RGB"@.len() != "allm_mode"@.len());
        assert("Content Protection"@.len() != "scaling mode"@.len());
        assert("Content Protection"@.len() != "underscan"@.len());
        assert("Content Protection"@.len() != "content type"@.len());
        assert("Content Protection"@.len() != "HDCP Content Type"@.len());
        assert("Content Protection"@.len() != "allm_mode"@.len());
        assert("scaling mode"@.len() != "underscan"@.len());
        assert("scaling mode"@[0] != "content type"@[0]);
        assert("scaling mode"@.len() != "HDCP Content Type"@.len());
        assert("scaling mode"@.len() != "allm_mode"@.len());
        assert("underscan"@.len() != "content type"@.len());
        assert("underscan"@.len() != "HDCP Content Type"@.len());
        assert("underscan"@[0] != "allm_mode"@[0]);
        assert("content type"@.len() != "HDCP Content Type"@.len());
        assert("content type"@.len() != "allm_mode"@.len());
        assert("HDCP Content Type"@.len() != "allm_mode"@.len());
    }
}

spec fn crtc_sources(list: Seq<PropertyInfo>) -> Seq<(Seq<char>, Option<(u32, u64)>)> {
    Seq::<(Seq<char>, Option<(u32, u64)>)>::empty().push(
        ("VRR_ENABLED"@, match property_named(list, "VRR_ENABLED"@) {
        Some(info) => if info.kind is Boolean {
            Some((info.handle, 0u64))
        } else {
            None
        },
        None => None,
    }),
    ).push(
        ("GAMMA_LUT"@, cleared(list, "GAMMA_LUT"@, 0)),
    ).push(
        ("DEGAMMA_LUT"@, cleared(list, "DEGAMMA_LUT"@, 0)),
    ).push(
        ("CTM"@, cleared(list, "CTM"@, 0)),
    )
}

proof fn lemma_crtc_sources(list: Seq<PropertyInfo>)
    ensures
        sourced(list, crtc_sources(list)),
        gathered(crtc_sources(list), neutral_crtc(list)),
{
    reveal_strlit("VRR_ENABLED");
    reveal_strlit("GAMMA_LUT");
    reveal_strlit("DEGAMMA_LUT");
    reveal_strlit("CTM");
    let s0 = Seq::<(Seq<char>, Option<(u32, u64)>)>::empty();
    let t0 = Seq::<(u32, u64)>::empty();
    assert(gathered(s0, t0));
    let o0 = match property_named(list, "VRR_ENABLED"@) {
        Some(info) => if info.kind is Boolean {
            Some((info.handle, 0u64))
        } else {
            None
        },
        None => None,
    };
    lemma_gathered_next(s0, t0, "VRR_ENABLED"@, o0);
    let s1 = s0.push(("VRR_ENABLED"@, o0));
    let t1 = t0 + listed(o0);
    let o1 = cleared(list, "GAMMA_LUT"@, 0);
    lemma_gathered_next(s1, t1, "GAMMA_LUT"@, o1);
    let s2 = s1.push(("GAMMA_LUT"@, o1));
    let t2 = t1 + listed(o1);
    let o2 = cleared(list, "DEGAMMA_LUT"@, 0);
    lemma_gathered_next(s2, t2, "DEGAMMA_LUT"@, o2);
    let s3 = s2.push(("DEGAMMA_LUT"@, o2));
    let t3 = t2 + listed(o2);
    let o3 = cleared(list, "CTM"@, 0);
    lemma_gathered_next(s3, t3, "CTM"@, o3);
    let s4 = s3.push(("CTM"@, o3));
    let t4 = t3 + listed(o3);
    assert(neutral_crtc(list) =~= t4);
    assert(crtc_sources(list) == s4);
    assert forall|k: int, l: int| 0 <= k < l < s4.len() implies (#[trigger] s4[k]).0 != (
    #[trigger] s4[l]).0 by {
        assert("VRR_ENABLED"@.len() != "GAMMA_LUT"@.len());
        assert("VRR_ENABLED"@[0] != "DEGAMMA_LUT"@[0]);
        assert("VRR_ENABLED"@.len() != "CTM"@.len());
        assert("GAMMA_LUT"@.len() != "DEGAMMA_LUT"@.len());
        assert("GAMMA_LUT"@.len() != "CTM"@.len());
        assert("DEGAMMA_LUT"@.len() != "CTM"@.len());
    }
}

spec fn plane_sources(list: Seq<PropertyInfo>) -> Seq<(Seq<char>, Option<(u32, u64)>)> {
    Seq::<(Seq<char>, Option<(u32, u64)>)>::empty().push(
        ("FB_DAMAGE_CLIPS"@, cleared(list, "FB_DAMAGE_CLIPS"@, 0)),
    ).push(
        ("rotation"@, match property_named(list, "rotation"@) {
        Some(info) => if info.kind is Bitmask {
            Some((info.handle, 1u64))
        } else {
            None
        },
        None => None,
    }),
    )
}

proof fn lemma_plane_sources(list: Seq<PropertyInfo>)
    ensures
        sourced(list, plane_sources(list)),
        gathered(plane_sources(list), neutral_plane(list)),
{
    reveal_strlit("FB_DAMAGE_CLIPS");
    reveal_strlit("rotation");
    let s0 = Seq::<(Seq<char>, Option<(u32, u64)>)>::empty();
    let t0 = Seq::<(u32, u64)>::empty();
    assert(gathered(s0, t0));
    let o0 = cleared(list, "FB_DAMAGE_CLIPS"@, 0);
    lemma_gathered_next(s0, t0, "FB_DAMAGE_CLIPS"@, o0);
    let s1 = s0.push(("FB_DAMAGE_CLIPS"@, o0));
    let t1 = t0 + listed(o0);
    let o1 = match property_named(list, "rotation"@) {
        Some(info) => if info.kind is Bitmask {
            Some((info.handle, 1u64))
        } else {
            None
        },
        None => None,
    };
    lemma_gathered_next(s1, t1, "rotation"@, o1);
    let s2 = s1.push(("rotation"@, o1));
    let t2 = t1 + listed(o1);
    assert(neutral_plane(list) =~= t2);
    assert(plane_sources(list) == s2);
    assert forall|k: int, l: int| 0 <= k < l < s2.len() implies (#[trigger] s2[k]).0 != (
    #[trigger] s2[l]).0 by {
        assert("FB_DAMAGE_CLIPS"@.len() != "rotation"@.len());
    }
}

/// The neutral state of a connector clears its HDR metadata and puts each property that shapes the
/// picture or the link to the entry that leaves the picture alone: the default colour space, the
/// full RGB range, no content protection, no scaling, no underscan, no content type, the lowest
/// HDCP content type and no low-latency mode. Nothing else is set.
pub proof fn law_neutral_connectors_leave_the_picture_alone(list: Seq<PropertyInfo>)
    requires
        handles_distinct(list),
    ensures
        clears_to(list, neutral_connector(list), "HDR_OUTPUT_METADATA"@, 0),
        resets_to(list, neutral_connector(list), "Colorspace"@, "Default"@),
        resets_to(list, neutral_connector(list), "Broadcast RGB"@, "Full"@),
        resets_to(list, neutral_connector(list), "Content Protection"@, "Undesired"@),
        resets_to(list, neutral_connector(list), "scaling mode"@, "None"@),
        resets_to(list, neutral_connector(list), "underscan"@, "off"@),
        resets_to(list, neutral_connector(list), "content type"@, "No Data"@),
        resets_to(list, neutral_connector(list), "HDCP Content Type"@, "HDCP Type0"@),
        resets_to(list, neutral_connector(list), "allm_mode"@, "Disabled"@),
        forall|s: (u32, u64)| #[trigger]
            neutral_connector(list).contains(s) ==> exists|i: int, name: Seq<char>|
                {
                    &&& #[trigger] first_of_name(list, i, name)
                    &&& list[i].handle == s.0
                    &&& name == "HDR_OUTPUT_METADATA"@ || name == "Colorspace"@ || name == "Broadcast RGB"@ || name == "Content Protection"@ || name == "scaling mode"@ || name == "underscan"@ || name == "content type"@ || name == "HDCP Content Type"@ || name == "allm_mode"@
                },
{
    let settings = neutral_connector(list);
    let sources = connector_sources(list);
    lemma_connector_sources(list);
    assert forall|i: int| #[trigger] first_of_name(
        list,
        i,
        "HDR_OUTPUT_METADATA"@,
    ) implies sets_only(settings, list[i].handle, 0) by {
        law_properties_are_found_by_name(list, "HDR_OUTPUT_METADATA"@);
        assert(sources[0].1 == Some((list[i].handle, 0u64)));
        lemma_gathered_sets_only(list, sources, settings, 0, list[i].handle, 0);
    }
    lemma_resets(list, sources, settings, 1, "Colorspace"@, "Default"@);
    lemma_resets(list, sources, settings, 2, "Broadcast RGB"@, "Full"@);
    lemma_resets(list, sources, settings, 3, "Content Protection"@, "Undesired"@);
    lemma_resets(list, sources, settings, 4, "scaling mode"@, "None"@);
    lemma_resets(list, sources, settings, 5, "underscan"@, "off"@);
    lemma_resets(list, sources, settings, 6, "content type"@, "No Data"@);
    lemma_resets(list, sources, settings, 7, "HDCP Content Type"@, "HDCP Type0"@);
    lemma_resets(list, sources, settings, 8, "allm_mode"@, "Disabled"@);
    assert forall|s: (u32, u64)| #[trigger] settings.contains(s) implies exists|
        i: int,
        name: Seq<char>,
    |
        {
            &&& #[trigger] first_of_name(list, i, name)
            &&& list[i].handle == s.0
            &&& name == "HDR_OUTPUT_METADATA"@ || name == "Colorspace"@ || name == "Broadcast RGB"@ || name == "Content Protection"@ || name == "scaling mode"@ || name == "underscan"@ || name == "content type"@ || name == "HDCP Content Type"@ || name == "allm_mode"@
        } by {
        let k = lemma_gathered_names(list, sources, settings, s);
        let i = choose|i: int| #[trigger]
            first_of_name(list, i, sources[k].0) && list[i].handle == s.0;
        assert(first_of_name(list, i, sources[k].0));
    }
}

proof fn lemma_resets(
    list: Seq<PropertyInfo>,
    sources: Seq<(Seq<char>, Option<(u32, u64)>)>,
    settings: Seq<(u32, u64)>,
    at: int,
    property: Seq<char>,
    entry: Seq<char>,
)
    requires
        handles_distinct(list),
        sourced(list, sources),
        gathered(sources, settings),
        0 <= at < sources.len(),
        sources[at].1 == enum_setting(list, property, entry),
    ensures
        resets_to(list, settings, property, entry),
{
    law_enumeration_values_are_found_by_name(list, property, entry);
    assert forall|i: int, entries: Vec<EnumEntry>, k: int|
        #[trigger] first_of_name(list, i, property) && list[i].kind == PropertyKind::Enum(entries)
            && #[trigger] first_entry_of_name(entries@, k, entry) implies sets_only(
        settings,
        list[i].handle,
        entries@[k].value,
    ) by {
        lemma_gathered_sets_only(
            list,
            sources,
            settings,
            at,
            list[i].handle,
            entries@[k].value,
        );
    }
}

/// The neutral state of a CRTC turns variable refresh off and clears the gamma table, the degamma
/// table and the colour matrix. Nothing else is set.
pub proof fn law_neutral_crtcs_do_not_alter_colours(list: Seq<PropertyInfo>)
    requires
        handles_distinct(list),
    ensures
        forall|i: int| #[trigger]
            first_of_name(list, i, "VRR_ENABLED"@) && list[i].kind is Boolean ==> sets_only(
                neutral_crtc(list),
                list[i].handle,
                0,
            ),
        clears_to(list, neutral_crtc(list), "GAMMA_LUT"@, 0),
        clears_to(list, neutral_crtc(list), "DEGAMMA_LUT"@, 0),
        clears_to(list, neutral_crtc(list), "CTM"@, 0),
        forall|s: (u32, u64)| #[trigger]
            neutral_crtc(list).contains(s) ==> s.1 == 0 && exists|i: int, name: Seq<char>|
                {
                    &&& #[trigger] first_of_name(list, i, name)
                    &&& list[i].handle == s.0
                    &&& name == "VRR_ENABLED"@ || name == "GAMMA_LUT"@ || name == "DEGAMMA_LUT"@
                        || name == "CTM"@
                },
{
    let settings = neutral_crtc(list);
    let sources = crtc_sources(list);
    lemma_crtc_sources(list);
    assert forall|i: int| #[trigger]
        first_of_name(list, i, "VRR_ENABLED"@) && list[i].kind is Boolean implies sets_only(
        settings,
        list[i].handle,
        0,
    ) by {
        law_properties_are_found_by_name(list, "VRR_ENABLED"@);
        assert(sources[0].1 == Some((list[i].handle, 0u64)));
        lemma_gathered_sets_only(list, sources, settings, 0, list[i].handle, 0);
    }
    lemma_clears(list, sources, settings, 1, "GAMMA_LUT"@);
    lemma_clears(list, sources, settings, 2, "DEGAMMA_LUT"@);
    lemma_clears(list, sources, settings, 3, "CTM"@);
    assert forall|s: (u32, u64)| #[trigger] settings.contains(s) implies s.1 == 0 && exists|
        i: int,
        name: Seq<char>,
    |
        {
            &&& #[trigger] first_of_name(list, i, name)
            &&& list[i].handle == s.0
            &&& name == "VRR_ENABLED"@ || name == "GAMMA_LUT"@ || name == "DEGAMMA_LUT"@ || name
                == "CTM"@
        } by {
        let k = lemma_gathered_names(list, sources, settings, s);
        let i = choose|i: int| #[trigger]
            first_of_name(list, i, sources[k].0) && list[i].handle == s.0;
        assert(first_of_name(list, i, sources[k].0));
        assert(k == 0 || k == 1 || k == 2 || k == 3);
    }
}

proof fn lemma_clears(
    list: Seq<PropertyInfo>,
    sources: Seq<(Seq<char>, Option<(u32, u64)>)>,
    settings: Seq<(u32, u64)>,
    at: int,
    property: Seq<char>,
)
    requires
        handles_distinct(list),
        sourced(list, sources),
        gathered(sources, settings),
        0 <= at < sources.len(),
        sources[at].1 == cleared(list, property, 0),
    ensures
        clears_to(list, settings, property, 0),
{
    law_properties_are_found_by_name(list, property);
    assert forall|i: int| #[trigger] first_of_name(list, i, property) implies sets_only(
        settings,
        list[i].handle,
        0,
    ) by {
        lemma_gathered_sets_only(list, sources, settings, at, list[i].handle, 0);
    }
}

/// The neutral state of a plane takes the whole framebuffer as damaged and does not rotate it: of
/// the rotation bits only the lowest, which stands for no rotation, is set. Nothing else is set.
pub proof fn law_neutral_planes_show_the_framebuffer_upright(list: Seq<PropertyInfo>)
    requires
        handles_distinct(list),
    ensures
        clears_to(list, neutral_plane(list), "FB_DAMAGE_CLIPS"@, 0),
        forall|i: int| #[trigger]
            first_of_name(list, i, "rotation"@) && list[i].kind is Bitmask ==> sets_only(
                neutral_plane(list),
                list[i].handle,
                1,
            ),
        forall|s: (u32, u64)| #[trigger]
            neutral_plane(list).contains(s) ==> exists|i: int, name: Seq<char>|
                {
                    &&& #[trigger] first_of_name(list, i, name)
                    &&& list[i].handle == s.0
                    &&& name == "FB_DAMAGE_CLIPS"@ || name == "rotation"@
                },
{
    let settings = neutral_plane(list);
    let sources = plane_sources(list);
    lemma_plane_sources(list);
    lemma_clears(list, sources, settings, 0, "FB_DAMAGE_CLIPS"@);
    assert forall|i: int| #[trigger]
        first_of_name(list, i, "rotation"@) && list[i].kind is Bitmask implies sets_only(
        settings,
        list[i].handle,
        1,
    ) by {
        law_properties_are_found_by_name(list, "rotation"@);
        assert(sources[1].1 == Some((list[i].handle, 1u64)));
        lemma_gathered_sets_only(list, sources, settings, 1, list[i].handle, 1);
    }
    assert forall|s: (u32, u64)| #[trigger] settings.contains(s) implies exists|
        i: int,
        name: Seq<char>,
    |
        {
            &&& #[trigger] first_of_name(list, i, name)
            &&& list[i].handle == s.0
            &&& name == "FB_DAMAGE_CLIPS"@ || name == "rotation"@
        } by {
        let k = lemma_gathered_names(list, sources, settings, s);
        let i = choose|i: int| #[trigger]
            first_of_name(list, i, sources[k].0) && list[i].handle == s.0;
        assert(first_of_name(list, i, sources[k].0));
    }
}

/// The handles of a member are those of the properties that carry the kernel's names for them, on
/// the object that each belongs to, and they are found exactly when all of these exist.
pub proof fn law_member_handles_are_found_by_name(
    conn: Seq<PropertyInfo>,
    crtc: Seq<PropertyInfo>,
    plane: Seq<PropertyInfo>,
    i: int,
)
    ensures
        member_props(conn, crtc, plane) is Ok <==> {
            &&& has_property(conn, "CRTC_ID"@)
            &&& has_property(crtc, "MODE_ID"@)
            &&& has_property(crtc, "ACTIVE"@)
            &&& has_property(plane, "FB_ID"@)
            &&& has_property(plane, "CRTC_ID"@)
            &&& has_property(plane, "SRC_X"@)
            &&& has_property(plane, "SRC_Y"@)
            &&& has_property(plane, "SRC_W"@)
            &&& has_property(plane, "SRC_H"@)
            &&& has_property(plane, "CRTC_X"@)
            &&& has_property(plane, "CRTC_Y"@)
            &&& has_property(plane, "CRTC_W"@)
            &&& has_property(plane, "CRTC_H"@)
        },
        member_props(conn, crtc, plane) matches Ok(props) ==> {
            &&& first_of_name(conn, i, "CRTC_ID"@) ==> props.conn_crtc_id == conn[i].handle
            &&& first_of_name(crtc, i, "MODE_ID"@) ==> props.crtc_mode_id == crtc[i].handle
            &&& first_of_name(crtc, i, "ACTIVE"@) ==> props.crtc_active == crtc[i].handle
            &&& first_of_name(plane, i, "FB_ID"@) ==> props.plane_fb_id == plane[i].handle
            &&& first_of_name(plane, i, "CRTC_ID"@) ==> props.plane_crtc_id == plane[i].handle
            &&& first_of_name(plane, i, "SRC_X"@) ==> props.plane_src_x == plane[i].handle
            &&& first_of_name(plane, i, "SRC_Y"@) ==> props.plane_src_y == plane[i].handle
            &&& first_of_name(plane, i, "SRC_W"@) ==> props.plane_src_w == plane[i].handle
            &&& first_of_name(plane, i, "SRC_H"@) ==> props.plane_src_h == plane[i].handle
            &&& first_of_name(plane, i, "CRTC_X"@) ==> props.plane_crtc_x == plane[i].handle
            &&& first_of_name(plane, i, "CRTC_Y"@) ==> props.plane_crtc_y == plane[i].handle
            &&& first_of_name(plane, i, "CRTC_W"@) ==> props.plane_crtc_w == plane[i].handle
            &&& first_of_name(plane, i, "CRTC_H"@) ==> props.plane_crtc_h == plane[i].handle
            &&& props.connector_neutral == neutral_connector(conn)
            &&& props.crtc_neutral == neutral_crtc(crtc)
            &&& props.plane_neutral == neutral_plane(plane)
        },
{
    let all = required_handles(conn, crtc, plane);
    law_properties_are_found_by_name(conn, "CRTC_ID"@);
    law_properties_are_found_by_name(crtc, "MODE_ID"@);
    law_properties_are_found_by_name(crtc, "ACTIVE"@);
    law_properties_are_found_by_name(plane, "FB_ID"@);
    law_properties_are_found_by_name(plane, "CRTC_ID"@);
    law_properties_are_found_by_name(plane, "SRC_X"@);
    law_properties_are_found_by_name(plane, "SRC_Y"@);
    law_properties_are_found_by_name(plane, "SRC_W"@);
    law_properties_are_found_by_name(plane, "SRC_H"@);
    law_properties_are_found_by_name(plane, "CRTC_X"@);
    law_properties_are_found_by_name(plane, "CRTC_Y"@);
    law_properties_are_found_by_name(plane, "CRTC_W"@);
    law_properties_are_found_by_name(plane, "CRTC_H"@);
    assert(all.len() == 13);
    lemma_first_missing(all, 13);
    if first_missing(all, 13) is None {
        assert(all[0].1 is Some);
        assert(all[1].1 is Some);
        assert(all[2].1 is Some);
        assert(all[3].1 is Some);
        assert(all[4].1 is Some);
        assert(all[5].1 is Some);
        assert(all[6].1 is Some);
        assert(all[7].1 is Some);
        assert(all[8].1 is Some);
        assert(all[9].1 is Some);
        assert(all[10].1 is Some);
        assert(all[11].1 is Some);
        assert(all[12].1 is Some);
    }
}

proof fn lemma_first_missing(required: Seq<(Seq<char>, Option<u32>)>, n: int)
    requires
        0 <= n <= required.len(),
    ensures
        match first_missing(required, n) {
            None => forall|i: int| 0 <= i < n ==> (#[trigger] required[i]).1 is Some,
            Some(name) => exists|i: int|
                0 <= i < n && (#[trigger] required[i]).1 is None && required[i].0 == name
                    && forall|j: int| 0 <= j < i ==> (#[trigger] required[j]).1 is Some,
        },
    decreases n,
{
    if n > 0 {
        lemma_first_missing(required, n - 1);
        if first_missing(required, n - 1) is None && required[n - 1].1 is None {
            assert(required[n - 1].0 == first_missing(required, n)->0);
        }
    }
}

/// A member without one of its properties is refused with the first that is missing, under the name
/// of the object that should have it: the connector's before the CRTC's, and those before the
/// plane's.
pub proof fn law_the_first_missing_property_is_named(
    conn: Seq<PropertyInfo>,
    crtc: Seq<PropertyInfo>,
    plane: Seq<PropertyInfo>,
)
    ensures
        ({
            let found = member_props(conn, crtc, plane);
            &&& !has_property(conn, "CRTC_ID"@) ==> found == Err::<MemberPropsView, Seq<char>>(
                "connector CRTC_ID"@,
            )
            &&& has_property(conn, "CRTC_ID"@) && !has_property(crtc, "MODE_ID"@) ==> found == Err::<MemberPropsView, Seq<char>>(
                "crtc MODE_ID"@,
            )
            &&& has_property(conn, "CRTC_ID"@) && has_property(crtc, "MODE_ID"@) && !has_property(crtc, "ACTIVE"@) ==> found == Err::<MemberPropsView, Seq<char>>(
                "crtc ACTIVE"@,
            )
            &&& has_property(conn, "CRTC_ID"@) && has_property(crtc, "MODE_ID"@) && has_property(crtc, "ACTIVE"@) && !has_property(plane, "FB_ID"@) ==> found == Err::<MemberPropsView, Seq<char>>(
                "plane FB_ID"@,
            )
            &&& has_property(conn, "CRTC_ID"@) && has_property(crtc, "MODE_ID"@) && has_property(crtc, "ACTIVE"@) && has_property(plane, "FB_ID"@) && !has_property(plane, "CRTC_ID"@) ==> found == Err::<MemberPropsView, Seq<char>>(
                "plane CRTC_ID"@,
            )
            &&& has_property(conn, "CRTC_ID"@) && has_property(crtc, "MODE_ID"@) && has_property(crtc, "ACTIVE"@) && has_property(plane, "FB_ID"@) && has_property(plane, "CRTC_ID"@) && !has_property(plane, "SRC_X"@) ==> found == Err::<MemberPropsView, Seq<char>>(
                "plane SRC_X"@,
            )
            &&& has_property(conn, "CRTC_ID"@) && has_property(crtc, "MODE_ID"@) && has_property(crtc, "ACTIVE"@) && has_property(plane, "FB_ID"@) && has_property(plane, "CRTC_ID"@) && has_property(plane, "SRC_X"@) && !has_property(plane, "SRC_Y"@) ==> found == Err::<MemberPropsView, Seq<char>>(
                "plane SRC_Y"@,
            )
            &&& has_property(conn, "CRTC_ID"@) && has_property(crtc, "MODE_ID"@) && has_property(crtc, "ACTIVE"@) && has_property(plane, "FB_ID"@) && has_property(plane, "CRTC_ID"@) && has_property(plane, "SRC_X"@) && has_property(plane, "SRC_Y"@) && !has_property(plane, "SRC_W"@) ==> found == Err::<MemberPropsView, Seq<char>>(
                "plane SRC_W"@,
            )
            &&& has_property(conn, "CRTC_ID"@) && has_property(crtc, "MODE_ID"@) && has_property(crtc, "ACTIVE"@) && has_property(plane, "FB_ID"@) && has_property(plane, "CRTC_ID"@) && has_property(plane, "SRC_X"@) && has_property(plane, "SRC_Y"@) && has_property(plane, "SRC_W"@) && !has_property(plane, "SRC_H"@) ==> found == Err::<MemberPropsView, Seq<char>>(
                "plane SRC_H"@,
            )
            &&& has_property(conn, "CRTC_ID"@) && has_property(crtc, "MODE_ID"@) && has_property(crtc, "ACTIVE"@) && has_property(plane, "FB_ID"@) && has_property(plane, "CRTC_ID"@) && has_property(plane, "SRC_X"@) && has_property(plane, "SRC_Y"@) && has_property(plane, "SRC_W"@) && has_property(plane, "SRC_H"@) && !has_property(plane, "CRTC_X"@) ==> found == Err::<MemberPropsView, Seq<char>>(
                "plane CRTC_X"@,
            )
            &&& has_property(conn, "CRTC_ID"@) && has_property(crtc, "MODE_ID"@) && has_property(crtc, "ACTIVE"@) && has_property(plane, "FB_ID"@) && has_property(plane, "CRTC_ID"@) && has_property(plane, "SRC_X"@) && has_property(plane, "SRC_Y"@) && has_property(plane, "SRC_W"@) && has_property(plane, "SRC_H"@) && has_property(plane, "CRTC_X"@) && !has_property(plane, "CRTC_Y"@) ==> found == Err::<MemberPropsView, Seq<char>>(
                "plane CRTC_Y"@,
            )
            &&& has_property(conn, "CRTC_ID"@) && has_property(crtc, "MODE_ID"@) && has_property(crtc, "ACTIVE"@) && has_property(plane, "FB_ID"@) && has_property(plane, "CRTC_ID"@) && has_property(plane, "SRC_X"@) && has_property(plane, "SRC_Y"@) && has_property(plane, "SRC_W"@) && has_property(plane, "SRC_H"@) && has_property(plane, "CRTC_X"@) && has_property(plane, "CRTC_Y"@) && !has_property(plane, "CRTC_W"@) ==> found == Err::<MemberPropsView, Seq<char>>(
                "plane CRTC_W"@,
            )
            &&& has_property(conn, "CRTC_ID"@) && has_property(crtc, "MODE_ID"@) && has_property(crtc, "ACTIVE"@) && has_property(plane, "FB_ID"@) && has_property(plane, "CRTC_ID"@) && has_property(plane, "SRC_X"@) && has_property(plane, "SRC_Y"@) && has_property(plane, "SRC_W"@) && has_property(plane, "SRC_H"@) && has_property(plane, "CRTC_X"@) && has_property(plane, "CRTC_Y"@) && has_property(plane, "CRTC_W"@) && !has_property(plane, "CRTC_H"@) ==> found == Err::<MemberPropsView, Seq<char>>(
                "plane CRTC_H"@,
            )
        }),
{
    let all = required_handles(conn, crtc, plane);
    law_properties_are_found_by_name(conn, "CRTC_ID"@);
    law_properties_are_found_by_name(crtc, "MODE_ID"@);
    law_properties_are_found_by_name(crtc, "ACTIVE"@);
    law_properties_are_found_by_name(plane, "FB_ID"@);
    law_properties_are_found_by_name(plane, "CRTC_ID"@);
    law_properties_are_found_by_name(plane, "SRC_X"@);
    law_properties_are_found_by_name(plane, "SRC_Y"@);
    law_properties_are_found_by_name(plane, "SRC_W"@);
    law_properties_are_found_by_name(plane, "SRC_H"@);
    law_properties_are_found_by_name(plane, "CRTC_X"@);
    law_properties_are_found_by_name(plane, "CRTC_Y"@);
    law_properties_are_found_by_name(plane, "CRTC_W"@);
    law_properties_are_found_by_name(plane, "CRTC_H"@);
    assert(all.len() == 13);
    lemma_first_missing(all, 13);
    match first_missing(all, 13) {
        Some(name) => {
            let i = choose|i: int|
                0 <= i < 13 && (#[trigger] all[i]).1 is None && all[i].0 == name && forall|j: int|
                    0 <= j < i ==> (#[trigger] all[j]).1 is Some;
            assert(all[i].0 == name);
            assert(i > 0 ==> all[0].1 is Some);
            assert(i > 1 ==> all[1].1 is Some);
            assert(i > 2 ==> all[2].1 is Some);
            assert(i > 3 ==> all[3].1 is Some);
            assert(i > 4 ==> all[4].1 is Some);
            assert(i > 5 ==> all[5].1 is Some);
            assert(i > 6 ==> all[6].1 is Some);
            assert(i > 7 ==> all[7].1 is Some);
            assert(i > 8 ==> all[8].1 is Some);
            assert(i > 9 ==> all[9].1 is Some);
            assert(i > 10 ==> all[10].1 is Some);
            assert(i > 11 ==> all[11].1 is Some);
            assert(i > 12 ==> all[12].1 is Some);
        },
        None => {
            assert(all[0].1 is Some);
            assert(all[1].1 is Some);
            assert(all[2].1 is Some);
            assert(all[3].1 is Some);
            assert(all[4].1 is Some);
            assert(all[5].1 is Some);
            assert(all[6].1 is Some);
            assert(all[7].1 is Some);
            assert(all[8].1 is Some);
            assert(all[9].1 is Some);
            assert(all[10].1 is Some);
            assert(all[11].1 is Some);
            assert(all[12].1 is Some);
        },
    }
}

/// The tile topology of a connector is the blob that its first property named `TILE` refers to, as
/// long as that property is a blob; its contents are those of the first blob read under that id.
pub proof fn law_tile_topologies_are_read_from_the_tile_property(
    list: Seq<PropertyInfo>,
    i: int,
    blobs: Seq<(u64, Vec<u8>)>,
    id: u64,
    k: int,
)
    ensures
        first_of_name(list, i, "TILE"@) && list[i].kind is Blob ==> tile_blob(list) == Some(
            list[i].value,
        ),
        first_of_name(list, i, "TILE"@) && !(list[i].kind is Blob) ==> tile_blob(list) is None,
        !has_property(list, "TILE"@) ==> tile_blob(list) is None,
        0 <= k < blobs.len() && blobs[k].0 == id && (forall|j: int|
            0 <= j < k ==> (#[trigger] blobs[j]).0 != id) ==> blob_among(
            blobs,
            id,
            blobs.len() as int,
        ) == Some(blobs[k].1@),
        (forall|j: int| 0 <= j < blobs.len() ==> (#[trigger] blobs[j]).0 != id) ==> blob_among(
            blobs,
            id,
            blobs.len() as int,
        ) is None,
{
    law_properties_are_found_by_name(list, "TILE"@);
    lemma_blob_found(blobs, id, k, blobs.len() as int);
}

proof fn lemma_blob_found(blobs: Seq<(u64, Vec<u8>)>, id: u64, k: int, n: int)
    requires
        0 <= n <= blobs.len(),
    ensures
        0 <= k < n && blobs[k].0 == id && (forall|j: int|
            0 <= j < k ==> (#[trigger] blobs[j]).0 != id) ==> blob_among(blobs, id, n) == Some(
            blobs[k].1@,
        ),
        (forall|j: int| 0 <= j < n ==> (#[trigger] blobs[j]).0 != id) ==> blob_among(blobs, id, n)
            is None,
    decreases n,
{
    if n > 0 {
        lemma_blob_found(blobs, id, k, n - 1);
        if k == n - 1 && blobs[k].0 == id && (forall|j: int|
            0 <= j < k ==> (#[trigger] blobs[j]).0 != id) {
            assert(blob_among(blobs, id, n - 1) is None);
        }
    }
}

/// The value of a property is that of the first property with its handle.
pub proof fn law_values_are_found_by_handle(list: Seq<PropertyInfo>, handle: u32, i: int)
    ensures
        0 <= i < list.len() && list[i].handle == handle && (forall|j: int|
            0 <= j < i ==> (#[trigger] list[j]).handle != handle) ==> value_among(
            list,
            handle,
            list.len() as int,
        ) == Some(list[i].value),
        (forall|j: int| 0 <= j < list.len() ==> (#[trigger] list[j]).handle != handle)
            ==> value_among(list, handle, list.len() as int) is None,
{
    lemma_value_first(list, handle, i, list.len() as int);
}

proof fn lemma_value_first(list: Seq<PropertyInfo>, handle: u32, i: int, n: int)
    requires
        0 <= n <= list.len(),
    ensures
        0 <= i < n && list[i].handle == handle && (forall|j: int|
            0 <= j < i ==> (#[trigger] list[j]).handle != handle) ==> value_among(list, handle, n)
            == Some(list[i].value),
        (forall|j: int| 0 <= j < n ==> (#[trigger] list[j]).handle != handle) ==> value_among(
            list,
            handle,
            n,
        ) is None,
    decreases n,
{
    if n > 0 {
        lemma_value_first(list, handle, i, n - 1);
        if i == n - 1 && list[i].handle == handle && (forall|j: int|
            0 <= j < i ==> (#[trigger] list[j]).handle != handle) {
            assert(value_among(list, handle, n - 1) is None);
        }
    }
}

} // verus!
