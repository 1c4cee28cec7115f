//! Pixel formats that the renderer and every plane of a tiled group share.

use vstd::prelude::*;

use crate::modes;

verus! {

/// Modifier of a buffer with linear rows.
pub const MODIFIER_LINEAR: u64 = 0;

/// Format code of 32-bit RGB without alpha.
pub const FOURCC_XRGB8888: u32 = 0x3432_5258;

/// Format code of 32-bit RGB with alpha.
pub const FOURCC_ARGB8888: u32 = 0x3432_5241;

/// A pixel format together with the layout of its buffers.
#[derive(Debug, Clone, Copy, PartialEq, Eq, Structural)]
pub struct Format {
    pub code: u32,
    pub modifier: u64,
}

/// Whether the modifier is one of Intel's render or media compression layouts.
pub open spec fn compressed(modifier: u64) -> bool {
    ||| modifier == 0x0100_0000_0000_0004
    ||| modifier == 0x0100_0000_0000_0005
    ||| modifier == 0x0100_0000_0000_0006
    ||| modifier == 0x0100_0000_0000_0007
    ||| modifier == 0x0100_0000_0000_0008
    ||| modifier == 0x0100_0000_0000_000a
    ||| modifier == 0x0100_0000_0000_000b
    ||| modifier == 0x0100_0000_0000_000c
}

/// Returns whether a modifier is known to consume disproportionate display bandwidth on Intel.
pub fn is_ccs_modifier(modifier: u64) -> (ccs: bool)
    ensures
        ccs == compressed(modifier),
{
    // I915_FORMAT_MOD_Y_TILED_CCS
    modifier == 0x0100_0000_0000_0004
    // I915_FORMAT_MOD_Yf_TILED_CCS
     || modifier == 0x0100_0000_0000_0005
    // I915_FORMAT_MOD_Y_TILED_GEN12_RC_CCS
     || modifier == 0x0100_0000_0000_0006
    // I915_FORMAT_MOD_Y_TILED_GEN12_MC_CCS
     || modifier == 0x0100_0000_0000_0007
    // I915_FORMAT_MOD_Y_TILED_GEN12_RC_CCS_CC
     || modifier == 0x0100_0000_0000_0008
    // I915_FORMAT_MOD_4_TILED_DG2_RC_CCS
     || modifier == 0x0100_0000_0000_000a
    // I915_FORMAT_MOD_4_TILED_DG2_MC_CCS
     || modifier == 0x0100_0000_0000_000b
    // I915_FORMAT_MOD_4_TILED_DG2_RC_CCS_CC
     || modifier == 0x0100_0000_0000_000c
}

/// Whether buffers of the format may be rendered to.
pub open spec fn renderable(format: Format, display_only: bool) -> bool {
    if display_only {
        format.modifier == MODIFIER_LINEAR
    } else {
        !compressed(format.modifier)
    }
}

/// Whether every plane offers the format.
pub open spec fn on_every_plane(format: Format, planes: Seq<Vec<Format>>) -> bool {
    forall|i: int| 0 <= i < planes.len() ==> (#[trigger] planes[i])@.contains(format)
}

/// The renderer's formats that every plane offers too, in the renderer's order.
pub open spec fn shared_formats(render: Seq<Format>, planes: Seq<Vec<Format>>) -> Seq<Format> {
    render.filter(|f: Format| on_every_plane(f, planes))
}

/// The modifiers of the formats with the given code.
pub open spec fn modifiers_of(formats: Seq<Format>, code: u32) -> Seq<u64> {
    formats.filter(|f: Format| f.code == code).map_values(|f: Format| f.modifier)
}

/// The preferred scanout format and its modifiers.
pub open spec fn scanout_choice(shared: Seq<Format>) -> Option<(u32, Seq<u64>)> {
    if modifiers_of(shared, FOURCC_XRGB8888).len() > 0 {
        Some((FOURCC_XRGB8888, modifiers_of(shared, FOURCC_XRGB8888)))
    } else if modifiers_of(shared, FOURCC_ARGB8888).len() > 0 {
        Some((FOURCC_ARGB8888, modifiers_of(shared, FOURCC_ARGB8888)))
    } else {
        None
    }
}

/// Applies the common render-format policy for ordinary and tiled scanout.
pub fn filter_render_formats(formats: &[Format], display_only: bool) -> (kept: Vec<Format>)
    ensures
        kept@ == formats@.filter(|f: Format| renderable(f, display_only)),
{
    let mut kept: Vec<Format> = Vec::new();
    let ghost pred = |f: Format| renderable(f, display_only);
    proof {
        reveal(Seq::filter);
        assert(formats@.take(0) =~= Seq::empty());
    }
    for i in 0..formats.len()
        invariant
            pred == (|f: Format| renderable(f, display_only)),
            kept@ == formats@.take(i as int).filter(pred),
    {
        proof {
            reveal(Seq::filter);
            assert(formats@.take(i + 1).drop_last() =~= formats@.take(i as int));
            assert(formats@.take(i + 1).last() == formats@[i as int]);
        }
        let format = formats[i];
        let keep = if display_only {
            format.modifier == MODIFIER_LINEAR
        } else {
            !is_ccs_modifier(format.modifier)
        };
        if keep {
            kept.push(format);
        }
    }
    assert(formats@.take(formats@.len() as int) =~= formats@);
    kept
}

/// Whether the list holds the format.
fn offers(formats: &Vec<Format>, format: Format) -> (found: bool)
    ensures
        found == formats@.contains(format),
{
    for i in 0..formats.len()
        invariant
            forall|k: int| 0 <= k < i ==> formats@[k] != format,
    {
        if formats[i] == format {
            return true;
        }
    }
    false
}

/// Whether every plane offers the format.
fn every_plane_offers(planes: &[Vec<Format>], format: Format) -> (all: bool)
    ensures
        all == on_every_plane(format, planes@),
{
    for i in 0..planes.len()
        invariant
            forall|k: int| 0 <= k < i ==> (#[trigger] planes@[k])@.contains(format),
    {
        if !offers(&planes[i], format) {
            assert(!planes@[i as int]@.contains(format));
            return false;
        }
    }
    true
}

/// Intersects renderer formats with every tiled primary plane.
pub fn tiled_scanout_formats(
    render_formats: &[Format],
    member_plane_formats: &[Vec<Format>],
) -> (shared: Vec<Format>)
    ensures
        shared@ == shared_formats(render_formats@, member_plane_formats@),
{
    let mut shared: Vec<Format> = Vec::new();
    let ghost pred = |f: Format| on_every_plane(f, member_plane_formats@);
    proof {
        reveal(Seq::filter);
        assert(render_formats@.take(0) =~= Seq::empty());
    }
    for i in 0..render_formats.len()
        invariant
            pred == (|f: Format| on_every_plane(f, member_plane_formats@)),
            shared@ == render_formats@.take(i as int).filter(pred),
    {
        proof {
            reveal(Seq::filter);
            assert(render_formats@.take(i + 1).drop_last() =~= render_formats@.take(i as int));
            assert(render_formats@.take(i + 1).last() == render_formats@[i as int]);
        }
        let format = render_formats[i];
        if every_plane_offers(member_plane_formats, format) {
            shared.push(format);
        }
    }
    assert(render_formats@.take(render_formats@.len() as int) =~= render_formats@);
    shared
}

/// The modifiers of the formats with the given code.
fn collect_modifiers(formats: &Vec<Format>, code: u32) -> (modifiers: Vec<u64>)
    ensures
        modifiers@ == modifiers_of(formats@, code),
{
    let mut modifiers: Vec<u64> = Vec::new();
    let ghost pred = |f: Format| f.code == code;
    let ghost pick = |f: Format| f.modifier;
    proof {
        reveal(Seq::filter);
        assert(formats@.take(0) =~= Seq::empty());
        assert(modifiers@ =~= formats@.take(0).filter(pred).map_values(pick));
    }
    for i in 0..formats.len()
        invariant
            pred == (|f: Format| f.code == code),
            pick == (|f: Format| f.modifier),
            modifiers@ == formats@.take(i as int).filter(pred).map_values(pick),
    {
        proof {
            reveal(Seq::filter);
            assert(formats@.take(i + 1).drop_last() =~= formats@.take(i as int));
            assert(formats@.take(i + 1).last() == formats@[i as int]);
        }
        let format = formats[i];
        if format.code == code {
            modifiers.push(format.modifier);
        }
        assert(modifiers@ =~= formats@.take(i + 1).filter(pred).map_values(pick));
    }
    assert(formats@.take(formats@.len() as int) =~= formats@);
    modifiers
}

/// Chooses the preferred tiled scanout format and its shared modifiers.
pub fn choose_tiled_scanout_format(
    render_formats: &[Format],
    member_plane_formats: &[Vec<Format>],
) -> (choice: Option<(u32, Vec<u64>)>)
    ensures
        match choice {
            Some(c) => scanout_choice(shared_formats(render_formats@, member_plane_formats@))
                == Some((c.0, c.1@)),
            None => scanout_choice(shared_formats(render_formats@, member_plane_formats@)) is None,
        },
{
    let common = tiled_scanout_formats(render_formats, member_plane_formats);
    let opaque = collect_modifiers(&common, FOURCC_XRGB8888);
    if opaque.len() > 0 {
        return Some((FOURCC_XRGB8888, opaque));
    }
    let alpha = collect_modifiers(&common, FOURCC_ARGB8888);
    if alpha.len() > 0 {
        return Some((FOURCC_ARGB8888, alpha));
    }
    None
}

// ---------------------------------------------------------------------------------------------
// Laws
// ---------------------------------------------------------------------------------------------

proof fn lemma_modifiers(formats: Seq<Format>, code: u32, modifier: u64)
    ensures
        modifiers_of(formats, code).contains(modifier) <==> formats.contains(
            Format { code, modifier },
        ),
{
    let pred = |f: Format| f.code == code;
    let kept = formats.filter(pred);
    modes::lemma_filter_members(formats, pred);
    let format = Format { code, modifier };
    assert(kept.contains(format) <==> formats.contains(format));
    let out = modifiers_of(formats, code);
    if out.contains(modifier) {
        let i = choose|i: int| 0 <= i < out.len() && out[i] == modifier;
        assert(kept.contains(kept[i]));
        assert(pred(kept[i]));
        assert(kept[i] == format);
    }
    if kept.contains(format) {
        let i = choose|i: int| 0 <= i < kept.len() && kept[i] == format;
        assert(out[i] == modifier);
    }
}

/// A chosen modifier belongs to a format of the chosen code that the renderer and every plane
/// offer, and every such modifier is chosen.
pub proof fn law_chosen_modifiers_are_the_shared_ones(
    render: Seq<Format>,
    planes: Seq<Vec<Format>>,
    modifier: u64,
)
    ensures
        scanout_choice(shared_formats(render, planes)) matches Some(choice) ==> (choice.1.contains(
            modifier,
        ) <==> render.contains(Format { code: choice.0, modifier }) && on_every_plane(
            Format { code: choice.0, modifier },
            planes,
        )),
{
    let shared = shared_formats(render, planes);
    modes::lemma_filter_members(render, |f: Format| on_every_plane(f, planes));
    lemma_modifiers(shared, FOURCC_XRGB8888, modifier);
    lemma_modifiers(shared, FOURCC_ARGB8888, modifier);
    assert(shared.contains(Format { code: FOURCC_XRGB8888, modifier }) <==> render.contains(
        Format { code: FOURCC_XRGB8888, modifier },
    ) && on_every_plane(Format { code: FOURCC_XRGB8888, modifier }, planes));
    assert(shared.contains(Format { code: FOURCC_ARGB8888, modifier }) <==> render.contains(
        Format { code: FOURCC_ARGB8888, modifier },
    ) && on_every_plane(Format { code: FOURCC_ARGB8888, modifier }, planes));
}

/// A shared format without alpha is preferred over one with alpha, and where either is shared
/// there is a choice.
pub proof fn law_opaque_scanout_is_preferred(
    render: Seq<Format>,
    planes: Seq<Vec<Format>>,
    format: Format,
)
    requires
        render.contains(format),
        on_every_plane(format, planes),
    ensures
        format.code == FOURCC_XRGB8888 ==> (scanout_choice(shared_formats(render, planes)) matches
            Some(choice) && choice.0 == FOURCC_XRGB8888),
        format.code == FOURCC_ARGB8888 ==> scanout_choice(shared_formats(render, planes)) is Some,
{
    let shared = shared_formats(render, planes);
    modes::lemma_filter_members(render, |f: Format| on_every_plane(f, planes));
    assert(shared.contains(format));
    lemma_modifiers(shared, format.code, format.modifier);
    assert(modifiers_of(shared, format.code).contains(format.modifier));
}

/// The filters keep their input free of repeats: a set of formats stays a set.
pub proof fn law_filtered_format_sets_stay_sets(
    formats: Seq<Format>,
    planes: Seq<Vec<Format>>,
    display_only: bool,
)
    requires
        formats.no_duplicates(),
    ensures
        formats.filter(|f: Format| renderable(f, display_only)).no_duplicates(),
        shared_formats(formats, planes).no_duplicates(),
{
    lemma_filter_keeps_distinct(formats, |f: Format| renderable(f, display_only));
    lemma_filter_keeps_distinct(formats, |f: Format| on_every_plane(f, planes));
}

proof fn lemma_filter_keeps_distinct(formats: Seq<Format>, pred: spec_fn(Format) -> bool)
    requires
        formats.no_duplicates(),
    ensures
        formats.filter(pred).no_duplicates(),
    decreases formats.len(),
{
    reveal(Seq::filter);
    if formats.len() > 0 {
        let rest = formats.drop_last();
        lemma_filter_keeps_distinct(rest, pred);
        modes::lemma_filter_members(rest, pred);
        let last = formats.last();
        if rest.filter(pred).contains(last) {
            assert(rest.contains(last));
            let i = choose|i: int| 0 <= i < rest.len() && rest[i] == last;
            assert(formats[i] == last);
        }
        let sub = rest.filter(pred);
        let out = formats.filter(pred);
        assert forall|i: int, j: int| 0 <= i < j < out.len() implies out[i] != out[j] by {
            assert(out[i] == sub[i]);
            assert(sub.contains(sub[i]));
        }
    }
}

/// The compressed formats are those of one vendor, whose modifiers have a one in the top byte, with
/// eight numbers below it.
pub proof fn law_compressed_modifiers_are_those_of_one_vendor(modifier: u64)
    ensures
        compressed(modifier) <==> modifier as int / 0x100_0000_0000_0000 == 1 && ({
            let number = modifier as int % 0x100_0000_0000_0000;
            4 <= number <= 8 || 10 <= number <= 12
        }),
        !compressed(0),
{
}

/// A display-only device renders linear formats alone; any other renders all but the compressed
/// ones. What is kept is neither changed nor added to.
pub proof fn law_render_formats_are_kept_or_dropped(
    formats: Seq<Format>,
    display_only: bool,
    format: Format,
)
    ensures
        formats.filter(|f: Format| renderable(f, display_only)).contains(format)
            <==> formats.contains(format) && (display_only ==> format.modifier == 0) && (
        !display_only ==> !compressed(format.modifier)),
{
    crate::modes::lemma_filter_members(formats, |f: Format| renderable(f, display_only));
}

/// A format is shared exactly when it can be rendered and every plane offers it, code and modifier.
pub proof fn law_shared_formats_are_on_every_plane(
    render: Seq<Format>,
    planes: Seq<Vec<Format>>,
    format: Format,
)
    ensures
        shared_formats(render, planes).contains(format) <==> render.contains(format) && forall|
            i: int,
        |
            0 <= i < planes.len() ==> (#[trigger] planes[i])@.contains(format),
{
    crate::modes::lemma_filter_members(render, |f: Format| on_every_plane(f, planes));
}

/// Scanout uses 24-bit colour with or without alpha and nothing else: the opaque format where one is
/// shared, else the one with alpha, else none. The codes spell `XR24` and `AR24`, lowest byte first.
pub proof fn law_scanout_is_opaque_or_else_with_alpha(shared: Seq<Format>)
    ensures
        ({
            let opaque = 'X' as u32 + ('R' as u32) * 0x100 + ('2' as u32) * 0x1_0000 + ('4' as u32)
                * 0x100_0000;
            let alpha = 'A' as u32 + ('R' as u32) * 0x100 + ('2' as u32) * 0x1_0000 + ('4' as u32)
                * 0x100_0000;
            let has_opaque = exists|i: int|
                0 <= i < shared.len() && (#[trigger] shared[i]).code == opaque;
            let has_alpha = exists|i: int|
                0 <= i < shared.len() && (#[trigger] shared[i]).code == alpha;
            &&& has_opaque ==> (scanout_choice(shared) matches Some(choice) && choice.0 == opaque)
            &&& !has_opaque && has_alpha ==> (scanout_choice(shared) matches Some(choice)
                && choice.0 == alpha)
            &&& !has_opaque && !has_alpha ==> scanout_choice(shared) is None
        }),
{
    assert(FOURCC_XRGB8888 == 0x3432_5258u32);
    lemma_modifiers_exist(shared, FOURCC_XRGB8888);
    lemma_modifiers_exist(shared, FOURCC_ARGB8888);
}

proof fn lemma_modifiers_exist(formats: Seq<Format>, code: u32)
    ensures
        modifiers_of(formats, code).len() > 0 <==> exists|i: int|
            0 <= i < formats.len() && (#[trigger] formats[i]).code == code,
{
    let pred = |f: Format| f.code == code;
    crate::modes::lemma_filter_members(formats, pred);
    let kept = formats.filter(pred);
    if kept.len() > 0 {
        assert(kept.contains(kept[0]));
        assert(formats.contains(kept[0]));
    }
    if exists|i: int| 0 <= i < formats.len() && (#[trigger] formats[i]).code == code {
        let i = choose|i: int| 0 <= i < formats.len() && (#[trigger] formats[i]).code == code;
        assert(formats.contains(formats[i]));
        assert(kept.contains(formats[i]));
    }
}

} // verus!
