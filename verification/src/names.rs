//! Output names.

use vstd::prelude::*;

use crate::text;

verus! {

/// Name of an output: its connector and, where the sink reports them, make, model and serial.
#[derive(Debug, Clone, PartialEq, Eq)]
pub struct OutputName {
    pub connector: String,
    pub make: Option<String>,
    pub model: Option<String>,
    pub serial: Option<String>,
}

/// What an optional string holds.
pub open spec fn optional_text(s: Option<String>) -> Option<Seq<char>> {
    match s {
        Some(t) => Some(t@),
        None => None,
    }
}

/// The contents of an output name.
pub struct NameView {
    pub connector: Seq<char>,
    pub make: Option<Seq<char>>,
    pub model: Option<Seq<char>>,
    pub serial: Option<Seq<char>>,
}

impl View for OutputName {
    type V = NameView;

    open spec fn view(&self) -> NameView {
        NameView {
            connector: self.connector@,
            make: optional_text(self.make),
            model: optional_text(self.model),
            serial: optional_text(self.serial),
        }
    }
}

/// Whether two names are the same in every part.
pub fn same_name(a: &OutputName, b: &OutputName) -> (same: bool)
    ensures
        same == (a@ == b@),
{
    a.connector == b.connector && same_optional(&a.make, &b.make) && same_optional(
        &a.model,
        &b.model,
    ) && same_optional(&a.serial, &b.serial)
}

fn same_optional(a: &Option<String>, b: &Option<String>) -> (same: bool)
    ensures
        same == (optional_text(*a) == optional_text(*b)),
{
    match a {
        Some(x) => match b {
            Some(y) => *x == *y,
            None => false,
        },
        None => match b {
            Some(_) => false,
            None => true,
        },
    }
}

/// A copy of an optional string.
pub fn copy_optional(s: &Option<String>) -> (copy: Option<String>)
    ensures
        optional_text(copy) == optional_text(*s),
{
    match s {
        Some(t) => Some(t.clone()),
        None => None,
    }
}

/// The two texts in order.
pub open spec fn ordered_pair(a: Seq<char>, b: Seq<char>) -> (Seq<char>, Seq<char>) {
    if text::text_le(a, b) {
        (a, b)
    } else {
        (b, a)
    }
}

/// The name of the output synthesized from a left and a right tile.
pub open spec fn tiled_name(
    left: NameView,
    right: NameView,
    disable_monitor_names: bool,
) -> NameView {
    let pair = ordered_pair(left.connector, right.connector);
    NameView {
        connector: pair.0 + "+"@ + pair.1,
        make: if disable_monitor_names {
            None
        } else {
            left.make
        },
        model: if disable_monitor_names {
            None
        } else {
            left.model
        },
        serial: if disable_monitor_names {
            None
        } else {
            left.serial
        },
    }
}

/// Returns the synthesized logical output name for two member connectors.
///
/// The connector part does not depend on which physical link ended up left, so that links may swap
/// roles across replugs. The identity comes from the physical left tile.
pub fn tiled_output_name(
    left: &OutputName,
    right: &OutputName,
    disable_monitor_names: bool,
) -> (name: OutputName)
    ensures
        name@ == tiled_name(left@, right@, disable_monitor_names),
{
    let left_first = text::text_at_most(left.connector.as_str(), right.connector.as_str());
    let mut connector = if left_first {
        left.connector.clone()
    } else {
        right.connector.clone()
    };
    connector.append("+");
    if left_first {
        connector.append(right.connector.as_str());
    } else {
        connector.append(left.connector.as_str());
    }
    if disable_monitor_names {
        OutputName { connector, make: None, model: None, serial: None }
    } else {
        OutputName {
            connector,
            make: copy_optional(&left.make),
            model: copy_optional(&left.model),
            serial: copy_optional(&left.serial),
        }
    }
}

/// Swapping the two tiles does not change the connector part of the synthesized name.
pub proof fn law_tiled_connector_ignores_tile_order(
    left: NameView,
    right: NameView,
    disable_monitor_names: bool,
)
    ensures
        tiled_name(left, right, disable_monitor_names).connector == tiled_name(
            right,
            left,
            disable_monitor_names,
        ).connector,
{
    text::lemma_text_order_is_total();
    let le = text::text_order();
    let a = left.connector;
    let b = right.connector;
    assert(le(a, b) == text::text_le(a, b));
    assert(le(b, a) == text::text_le(b, a));
}

/// The key under which a group is remembered: the lowered member names, sorted and joined.
pub open spec fn group_key(members: Seq<Seq<char>>) -> Seq<char> {
    text::joined(lowered_all(members).sort_by(text::text_order()), "\u{1f}"@)
}

/// Every text with its ASCII letters lowered.
pub open spec fn lowered_all(list: Seq<Seq<char>>) -> Seq<Seq<char>> {
    Seq::new(list.len(), |i: int| text::lowered(list[i]))
}

/// A key for a group of members that does not depend on their order or the case of their names.
pub fn stable_group_key(members: &[String]) -> (key: String)
    ensures
        key@ == group_key(text::texts(members@)),
{
    let mut low: Vec<String> = Vec::new();
    for i in 0..members.len()
        invariant
            low@.len() == i,
            forall|k: int| 0 <= k < i ==> (#[trigger] low@[k])@ == text::lowered(members@[k]@),
    {
        low.push(members[i].to_ascii_lowercase());
    }
    assert(text::texts(low@) =~= lowered_all(text::texts(members@)));
    text::sort_texts(&mut low);
    text::join_texts(&low, "\u{1f}")
}

/// Groups whose lowered member names agree up to order have the same key.
pub proof fn law_group_key_ignores_order_and_case(a: Seq<Seq<char>>, b: Seq<Seq<char>>)
    requires
        lowered_all(a).to_multiset() == lowered_all(b).to_multiset(),
    ensures
        group_key(a) == group_key(b),
{
    text::lemma_text_order_is_total();
    let le = text::text_order();
    lowered_all(a).lemma_sort_by_ensures(le);
    lowered_all(b).lemma_sort_by_ensures(le);
    vstd::seq_lib::lemma_sorted_unique(
        lowered_all(a).sort_by(le),
        lowered_all(b).sort_by(le),
        le,
    );
}

/// The name of a tiled output joins the connector names of its tiles with a plus, the one that sorts
/// first in front, and takes make, model and serial from the left tile unless monitor names are
/// disabled.
pub proof fn law_tiled_names_join_sorted_connectors(
    left: NameView,
    right: NameView,
    disable_monitor_names: bool,
)
    ensures
        ({
            let name = tiled_name(left, right, disable_monitor_names);
            &&& text::text_le(left.connector, right.connector) ==> name.connector == left.connector
                + "+"@ + right.connector
            &&& !text::text_le(left.connector, right.connector) ==> name.connector
                == right.connector + "+"@ + left.connector
            &&& disable_monitor_names ==> name.make is None && name.model is None && name.serial
                is None
            &&& !disable_monitor_names ==> name.make == left.make && name.model == left.model
                && name.serial == left.serial
        }),
{
}

/// The key of members that are already in order lists their lowered names with a unit separator
/// between every two.
pub proof fn law_group_keys_list_sorted_members(members: Seq<Seq<char>>)
    requires
        forall|i: int, j: int|
            0 <= i < j < members.len() ==> text::text_le(
                #[trigger] text::lowered(members[i]),
                #[trigger] text::lowered(members[j]),
            ),
    ensures
        group_key(members) == text::joined(
            Seq::new(members.len(), |i: int| text::lowered(members[i])),
            "\u{1f}"@,
        ),
{
    text::lemma_text_order_is_total();
    let le = text::text_order();
    let low = lowered_all(members);
    low.lemma_sort_by_ensures(le);
    assert forall|i: int, j: int| 0 <= i < j < low.len() implies le(
        #[trigger] low[i],
        #[trigger] low[j],
    ) by {
        assert(low[i] == text::lowered(members[i]));
        assert(low[j] == text::lowered(members[j]));
    }
    vstd::seq_lib::lemma_sorted_unique(low.sort_by(le), low, le);
}

} // verus!
