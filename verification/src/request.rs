//! Atomic requests: property settings that take effect together.

use vstd::prelude::*;

use drm::control::atomic::AtomicModeReq;

verus! {

/// The device crate's atomic request, a sorted table of property values by object and property.
#[verifier::external_type_specification]
#[verifier::external_body]
pub struct ExAtomicModeReq(drm::control::atomic::AtomicModeReq);

/// What a request holds: the value of each property, by object and property handle.
pub uninterp spec fn request_properties(req: AtomicModeReq) -> Map<(u32, u32), u64>;

/// Trusted: `AtomicModeReq::new` makes a request without properties.
#[verifier::external_body]
fn empty_request() -> (req: AtomicModeReq)
    ensures
        request_properties(req) == applied(Seq::empty()),
{
    AtomicModeReq::new()
}

/// Trusted: `AtomicModeReq::add_raw_property` sets one property of one object, overriding an earlier
/// value of the same property, and keeps every other property. Handles are non-zero, and the
/// request counts its properties in 32 bits.
#[verifier::external_body]
fn set_raw_property(req: &mut AtomicModeReq, object: u32, property: u32, value: u64)
    requires
        object != 0,
        property != 0,
        request_properties(*old(req)).dom().finite(),
        request_properties(*old(req)).dom().len() < u32::MAX,
    ensures
        request_properties(*final(req)) == request_properties(*old(req)).insert(
            (object, property),
            value,
        ),
{
    let object = drm::control::from_u32::<drm::control::RawResourceHandle>(object).unwrap();
    let property = drm::control::from_u32::<drm::control::property::Handle>(property).unwrap();
    req.add_raw_property(object, property, value)
}

/// One property of one object and the value that it is set to.
#[derive(Debug, Clone, Copy, PartialEq, Eq, Structural)]
pub struct Setting {
    pub object: u32,
    pub property: u32,
    pub value: u64,
}

/// The property values after the settings are made in order.
pub open spec fn applied(settings: Seq<Setting>) -> Map<(u32, u32), u64>
    decreases settings.len(),
{
    if settings.len() == 0 {
        Map::empty()
    } else {
        applied(settings.drop_last()).insert(
            (settings.last().object, settings.last().property),
            settings.last().value,
        )
    }
}

/// Whether every setting is for handles that the kernel may hand out.
pub open spec fn settings_wf(settings: Seq<Setting>) -> bool {
    forall|i: int|
        0 <= i < settings.len() ==> (#[trigger] settings[i]).object != 0 && settings[i].property
            != 0
}

/// A request that makes the settings in order.
pub fn request_of(settings: &Vec<Setting>) -> (req: AtomicModeReq)
    requires
        settings_wf(settings@),
        settings@.len() <= u32::MAX,
    ensures
        request_properties(req) == applied(settings@),
{
    let mut req = empty_request();
    assert(settings@.take(0) =~= Seq::empty());
    for i in 0..settings.len()
        invariant
            settings_wf(settings@),
            settings@.len() <= u32::MAX,
            request_properties(req) == applied(settings@.take(i as int)),
            request_properties(req).dom().finite(),
            request_properties(req).dom().len() <= i,
    {
        proof {
            assert(settings@.take(i + 1).drop_last() =~= settings@.take(i as int));
            assert(settings@.take(i + 1).last() == settings@[i as int]);
        }
        set_raw_property(
            &mut req,
            settings[i].object,
            settings[i].property,
            settings[i].value,
        );
    }
    assert(settings@.take(settings@.len() as int) =~= settings@);
    req
}

proof fn lemma_applied_extends(settings: Seq<Setting>, i: int, n: int)
    requires
        0 <= i < n <= settings.len(),
        forall|j: int|
            i < j < n ==> ((#[trigger] settings[j]).object, settings[j].property) != (
                settings[i].object,
                settings[i].property,
            ),
    ensures
        applied(settings.take(n)).contains_key((settings[i].object, settings[i].property)),
        applied(settings.take(n))[(settings[i].object, settings[i].property)] == settings[i].value,
    decreases n,
{
    assert(settings.take(n).drop_last() =~= settings.take(n - 1));
    assert(settings.take(n).last() == settings[n - 1]);
    if i < n - 1 {
        lemma_applied_extends(settings, i, n - 1);
    }
}

/// The last setting of a property decides its value.
pub proof fn law_last_setting_wins(settings: Seq<Setting>, i: int)
    requires
        0 <= i < settings.len(),
        forall|j: int|
            i < j < settings.len() ==> ((#[trigger] settings[j]).object, settings[j].property) != (
                settings[i].object,
                settings[i].property,
            ),
    ensures
        applied(settings).contains_key((settings[i].object, settings[i].property)),
        applied(settings)[(settings[i].object, settings[i].property)] == settings[i].value,
{
    assert(settings.take(settings.len() as int) =~= settings);
    lemma_applied_extends(settings, i, settings.len() as int);
}

/// A request touches only the properties that the settings name.
pub proof fn law_only_named_properties_are_set(settings: Seq<Setting>, object: u32, property: u32)
    requires
        applied(settings).contains_key((object, property)),
    ensures
        exists|i: int|
            0 <= i < settings.len() && (#[trigger] settings[i]).object == object
                && settings[i].property == property,
    decreases settings.len(),
{
    let last = settings.last();
    if last.object == object && last.property == property {
        assert(settings[settings.len() - 1] == last);
    } else {
        law_only_named_properties_are_set(settings.drop_last(), object, property);
        let i = choose|i: int|
            0 <= i < settings.drop_last().len() && (#[trigger] settings.drop_last()[i]).object
                == object && settings.drop_last()[i].property == property;
        assert(settings[i] == settings.drop_last()[i]);
    }
}

/// Settings of different properties all take effect.
pub proof fn law_distinct_settings_all_take_effect(settings: Seq<Setting>, i: int)
    requires
        0 <= i < settings.len(),
        forall|a: int, b: int|
            0 <= a < b < settings.len() ==> ((#[trigger] settings[a]).object, settings[a].property)
                != ((#[trigger] settings[b]).object, settings[b].property),
    ensures
        applied(settings).contains_key((settings[i].object, settings[i].property)),
        applied(settings)[(settings[i].object, settings[i].property)] == settings[i].value,
{
    law_last_setting_wins(settings, i);
}

} // verus!
