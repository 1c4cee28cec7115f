//! Gamma tables of members, and changing those of a whole group.

use std::collections::HashMap;
use std::hash::Hash;

use vstd::prelude::*;

use drm::control::atomic::AtomicModeReq;

use crate::props;
use crate::props::get_drm_property;
use crate::props::PropertyInfo;
use crate::props::PropertyKind;
use crate::request;
use crate::request::request_of;
use crate::request::Setting;
use crate::text;
use crate::text::decimal;

verus! {

// ---------------------------------------------------------------------------------------------
// Transactions across devices
// ---------------------------------------------------------------------------------------------

#[derive(Debug, Clone, Copy, PartialEq, Eq, Structural)]
pub enum GammaNodeState {
    Old,
    New,
    Unknown,
}

/// Per-node state for an emulated cross-device gamma transaction.
#[derive(Debug, Clone)]
pub struct GammaTransaction<Node> {
    states: HashMap<Node, GammaNodeState>,
}

impl<Node> View for GammaTransaction<Node> {
    type V = Map<Node, GammaNodeState>;

    closed spec fn view(&self) -> Map<Node, GammaNodeState> {
        self.states@
    }
}

impl<Node: Copy + Eq + Hash> GammaTransaction<Node> {
    pub fn new(nodes: Vec<Node>) -> (transaction: Self)
        requires
            vstd::std_specs::hash::obeys_key_model::<Node>(),
        ensures
            transaction@ == Map::new(|n: Node| nodes@.contains(n), |n: Node| GammaNodeState::Old),
    {
        let mut states: HashMap<Node, GammaNodeState> = HashMap::new();
        assert(states@ =~= Map::new(
            |n: Node| nodes@.take(0).contains(n),
            |n: Node| GammaNodeState::Old,
        ));
        for i in 0..nodes.len()
            invariant
                vstd::std_specs::hash::obeys_key_model::<Node>(),
                states@ == Map::new(
                    |n: Node| nodes@.take(i as int).contains(n),
                    |n: Node| GammaNodeState::Old,
                ),
        {
            states.insert(nodes[i], GammaNodeState::Old);
            proof {
                let next = nodes@.take(i + 1);
                let prev = nodes@.take(i as int);
                assert forall|n: Node| next.contains(n) <==> #[trigger] prev.contains(n) || n
                    == nodes@[i as int] by {
                    if next.contains(n) {
                        let k = choose|k: int| 0 <= k < next.len() && next[k] == n;
                        if k < i {
                            assert(prev[k] == n);
                        }
                    }
                    if prev.contains(n) {
                        let k = choose|k: int| 0 <= k < prev.len() && prev[k] == n;
                        assert(next[k] == n);
                    }
                    assert(next[i as int] == nodes@[i as int]);
                }
                assert(states@ =~= Map::new(
                    |n: Node| next.contains(n),
                    |n: Node| GammaNodeState::Old,
                ));
            }
        }
        assert(nodes@.take(nodes@.len() as int) =~= nodes@);
        GammaTransaction { states }
    }

    pub fn mark_new(&mut self, node: Node)
        requires
            vstd::std_specs::hash::obeys_key_model::<Node>(),
            old(self)@.contains_key(node),
        ensures
            final(self)@ == old(self)@.insert(node, GammaNodeState::New),
    {
        self.states.insert(node, GammaNodeState::New);
    }

    pub fn mark_rollback(&mut self, node: Node, confirmed: bool)
        requires
            vstd::std_specs::hash::obeys_key_model::<Node>(),
            old(self)@.contains_key(node),
        ensures
            final(self)@ == old(self)@.insert(
                node,
                if confirmed {
                    GammaNodeState::Old
                } else {
                    GammaNodeState::Unknown
                },
            ),
    {
        if confirmed {
            self.states.insert(node, GammaNodeState::Old);
        } else {
            self.states.insert(node, GammaNodeState::Unknown);
        }
    }

    pub fn state(&self, node: Node) -> (state: Option<GammaNodeState>)
        requires
            vstd::std_specs::hash::obeys_key_model::<Node>(),
        ensures
            state == (if self@.contains_key(node) {
                Some(self@[node])
            } else {
                None
            }),
    {
        match self.states.get(&node) {
            Some(state) => Some(*state),
            None => None,
        }
    }

    pub fn has_unknown(&self) -> (unknown: bool)
        requires
            vstd::std_specs::hash::obeys_key_model::<Node>(),
        ensures
            unknown == (exists|n: Node| #[trigger]
                self@.contains_key(n) && self@[n] == GammaNodeState::Unknown),
    {
        let mut unknown = false;
        let ghost mut seen: Seq<GammaNodeState> = Seq::empty();
        for state in it: self.states.values()
            invariant
                vstd::std_specs::hash::obeys_key_model::<Node>(),
                it.seq().unref().to_set() == self.states@.values(),
                seen == it.seq().unref().take(it.index() as int),
                it.index() == it.seq().len() ==> seen.to_set() == self.states@.values(),
                unknown == seen.contains(GammaNodeState::Unknown),
        {
            proof {
                let all = it.seq().unref();
                let next = seen.push(*state);
                assert(all[it.index() as int] == *state);
                assert(next =~= all.take(it.index() + 1));
                assert(all.take(all.len() as int) =~= all);
                assert(next.contains(GammaNodeState::Unknown) <==> seen.contains(
                    GammaNodeState::Unknown,
                ) || *state == GammaNodeState::Unknown) by {
                    assert(next[seen.len() as int] == *state);
                    if seen.contains(GammaNodeState::Unknown) {
                        let k = choose|k: int|
                            0 <= k < seen.len() && seen[k] == GammaNodeState::Unknown;
                        assert(next[k] == GammaNodeState::Unknown);
                    }
                }
                seen = next;
            }
            if *state == GammaNodeState::Unknown {
                unknown = true;
            }
        }
        proof {
            assert(seen.to_set() == self@.values());
            if unknown {
                assert(self@.values().contains(GammaNodeState::Unknown));
            }
            if exists|n: Node| #[trigger]
                self@.contains_key(n) && self@[n] == GammaNodeState::Unknown {
                assert(self@.values().contains(GammaNodeState::Unknown));
                assert(seen.to_set().contains(GammaNodeState::Unknown));
            }
        }
        unknown
    }

    pub fn states(&self) -> (states: &HashMap<Node, GammaNodeState>)
        ensures
            states@ == self@,
    {
        &self.states
    }
}

/// The states after the first `k` nodes are marked new.
pub open spec fn marked_new<Node>(
    states: Map<Node, GammaNodeState>,
    nodes: Seq<Node>,
    k: int,
) -> Map<Node, GammaNodeState>
    decreases k,
{
    if k <= 0 {
        states
    } else {
        marked_new(states, nodes, k - 1).insert(nodes[k - 1], GammaNodeState::New)
    }
}

/// The states after the first `k` nodes are rolled back, each confirmed or not.
pub open spec fn rolled_back<Node>(
    states: Map<Node, GammaNodeState>,
    nodes: Seq<Node>,
    confirmed: Seq<bool>,
    k: int,
) -> Map<Node, GammaNodeState>
    decreases k,
{
    if k <= 0 {
        states
    } else {
        rolled_back(states, nodes, confirmed, k - 1).insert(
            nodes[k - 1],
            if confirmed[k - 1] {
                GammaNodeState::Old
            } else {
                GammaNodeState::Unknown
            },
        )
    }
}

/// After a failed commit is rolled back, exactly the nodes whose rollback was not confirmed are
/// unknown; every other node is in its old state again.
pub proof fn law_rollback_leaves_only_unconfirmed_nodes_unknown<Node>(
    states: Map<Node, GammaNodeState>,
    nodes: Seq<Node>,
    confirmed: Seq<bool>,
    node: Node,
)
    requires
        nodes.no_duplicates(),
        confirmed.len() == nodes.len(),
        forall|n: Node| #[trigger] states.contains_key(n) ==> states[n] == GammaNodeState::Old,
        forall|i: int| 0 <= i < nodes.len() ==> states.contains_key(#[trigger] nodes[i]),
    ensures
        ({
            let after = rolled_back(
                marked_new(states, nodes, nodes.len() as int),
                nodes,
                confirmed,
                nodes.len() as int,
            );
            &&& after.dom() == states.dom()
            &&& forall|i: int|
                0 <= i < nodes.len() ==> #[trigger] after[nodes[i]] == (if confirmed[i] {
                    GammaNodeState::Old
                } else {
                    GammaNodeState::Unknown
                })
            &&& states.contains_key(node) && !nodes.contains(node) ==> after[node]
                == GammaNodeState::Old
        }),
{
    let n = nodes.len() as int;
    let marked = marked_new(states, nodes, n);
    lemma_marked_new(states, nodes, n, node);
    lemma_rolled_back(marked, nodes, confirmed, n, node);
}

proof fn lemma_marked_new<Node>(
    states: Map<Node, GammaNodeState>,
    nodes: Seq<Node>,
    k: int,
    node: Node,
)
    requires
        0 <= k <= nodes.len(),
        forall|i: int| 0 <= i < nodes.len() ==> states.contains_key(#[trigger] nodes[i]),
    ensures
        marked_new(states, nodes, k).dom() == states.dom(),
        !nodes.contains(node) ==> marked_new(states, nodes, k)[node] == states[node],
    decreases k,
{
    if k > 0 {
        lemma_marked_new(states, nodes, k - 1, node);
        let before = marked_new(states, nodes, k - 1);
        assert(states.contains_key(nodes[k - 1]));
        assert(before.insert(nodes[k - 1], GammaNodeState::New).dom() =~= states.dom());
        assert(nodes.contains(nodes[k - 1]));
    }
}

proof fn lemma_rolled_back<Node>(
    states: Map<Node, GammaNodeState>,
    nodes: Seq<Node>,
    confirmed: Seq<bool>,
    k: int,
    node: Node,
)
    requires
        0 <= k <= nodes.len(),
        nodes.no_duplicates(),
        confirmed.len() == nodes.len(),
        forall|i: int| 0 <= i < nodes.len() ==> states.contains_key(#[trigger] nodes[i]),
    ensures
        rolled_back(states, nodes, confirmed, k).dom() == states.dom(),
        forall|i: int|
            0 <= i < k ==> #[trigger] rolled_back(states, nodes, confirmed, k)[nodes[i]] == (
            if confirmed[i] {
                GammaNodeState::Old
            } else {
                GammaNodeState::Unknown
            }),
        !nodes.contains(node) ==> rolled_back(states, nodes, confirmed, k)[node] == states[node],
    decreases k,
{
    if k > 0 {
        lemma_rolled_back(states, nodes, confirmed, k - 1, node);
        let before = rolled_back(states, nodes, confirmed, k - 1);
        let after = rolled_back(states, nodes, confirmed, k);
        assert(states.contains_key(nodes[k - 1]));
        assert(after.dom() =~= states.dom());
        assert(nodes.contains(nodes[k - 1]));
        assert forall|i: int| 0 <= i < k implies #[trigger] after[nodes[i]] == (if confirmed[i] {
            GammaNodeState::Old
        } else {
            GammaNodeState::Unknown
        }) by {
            if i < k - 1 {
                assert(nodes[i] != nodes[k - 1]);
                assert(after[nodes[i]] == before[nodes[i]]);
            }
        }
    }
}

// ---------------------------------------------------------------------------------------------
// Gamma properties of one CRTC
// ---------------------------------------------------------------------------------------------

/// Why gamma cannot be changed.
#[derive(Debug, Clone, Copy, PartialEq, Eq, Structural)]
pub enum GammaError {
    WrongLutType,
    WrongLutSizeType,
    MissingLut,
    MissingLutSize,
    /// The size of the table, which a ramp must fit, is missing.
    SizeUnknown,
    WrongLength,
    Unsupported,
    IncompatibleSizes { left: u32, right: u32 },
    LeftUnsupported,
    RightUnsupported,
}

impl GammaError {
    /// The error in words.
    pub open spec fn message(self) -> Seq<char> {
        match self {
            GammaError::WrongLutType => "wrong GAMMA_LUT value type"@,
            GammaError::WrongLutSizeType => "wrong GAMMA_LUT_SIZE value type"@,
            GammaError::MissingLut => "missing GAMMA_LUT property"@,
            GammaError::MissingLutSize => "missing GAMMA_LUT_SIZE property"@,
            GammaError::SizeUnknown => "error getting gamma size"@,
            GammaError::WrongLength => "wrong gamma length"@,
            GammaError::Unsupported => "setting gamma is not supported"@,
            GammaError::IncompatibleSizes { left, right } =>
            "tiled group members have incompatible gamma sizes: "@ + text::decimal_text(left)
                + " and "@ + text::decimal_text(right),
            GammaError::LeftUnsupported => "left tiled member lacks atomic GAMMA_LUT support"@,
            GammaError::RightUnsupported => "right tiled member lacks atomic GAMMA_LUT support"@,
        }
    }

    /// The error in words.
    pub fn to_string(&self) -> (message: String)
        ensures
            message@ == self.message(),
            *self is WrongLutType ==> message@ == "wrong GAMMA_LUT value type"@,
            *self is WrongLutSizeType ==> message@ == "wrong GAMMA_LUT_SIZE value type"@,
            *self is MissingLut ==> message@ == "missing GAMMA_LUT property"@,
            *self is MissingLutSize ==> message@ == "missing GAMMA_LUT_SIZE property"@,
            *self is SizeUnknown ==> message@ == "error getting gamma size"@,
            *self is WrongLength ==> message@ == "wrong gamma length"@,
            *self is Unsupported ==> message@ == "setting gamma is not supported"@,
            *self matches GammaError::IncompatibleSizes { left, right } ==> message@ == "tiled group members have incompatible gamma sizes: "@ + text::decimal_text(left) + " and "@ + text::decimal_text(right),
            *self is LeftUnsupported ==> message@ == "left tiled member lacks atomic GAMMA_LUT support"@,
            *self is RightUnsupported ==> message@ == "right tiled member lacks atomic GAMMA_LUT support"@,
    {
        match self {
            GammaError::WrongLutType => "wrong GAMMA_LUT value type".to_owned(),
            GammaError::WrongLutSizeType => "wrong GAMMA_LUT_SIZE value type".to_owned(),
            GammaError::MissingLut => "missing GAMMA_LUT property".to_owned(),
            GammaError::MissingLutSize => "missing GAMMA_LUT_SIZE property".to_owned(),
            GammaError::SizeUnknown => "error getting gamma size".to_owned(),
            GammaError::WrongLength => "wrong gamma length".to_owned(),
            GammaError::Unsupported => "setting gamma is not supported".to_owned(),
            GammaError::IncompatibleSizes { left, right } => {
                let mut message = "tiled group members have incompatible gamma sizes: ".to_owned();
                message.append(decimal(*left).as_str());
                message.append(" and ");
                message.append(decimal(*right).as_str());
                message
            },
            GammaError::LeftUnsupported =>
            "left tiled member lacks atomic GAMMA_LUT support".to_owned(),
            GammaError::RightUnsupported =>
            "right tiled member lacks atomic GAMMA_LUT support".to_owned(),
        }
    }

    /// The error that led to this one.
    pub fn cause(&self) -> (cause: Option<GammaError>)
        ensures
            cause == (if *self is SizeUnknown {
                Some(GammaError::MissingLutSize)
            } else {
                None
            }),
    {
        match self {
            GammaError::SizeUnknown => Some(GammaError::MissingLutSize),
            _ => None,
        }
    }
}

/// The gamma properties of one CRTC and the table that is installed.
#[derive(Debug, Clone, Copy, PartialEq, Eq)]
pub struct GammaProps {
    pub crtc: u32,
    pub gamma_lut: u32,
    pub gamma_lut_size: u32,
    /// Blob of the installed table; blob ids are not zero.
    pub previous_blob: Option<u64>,
}

/// The id of an optional blob, zero standing for none.
pub open spec fn blob_value(blob: Option<u64>) -> u64 {
    match blob {
        Some(id) => id,
        None => 0,
    }
}

/// The table property and the size property among the first `n` properties, the last of each name
/// counting; or what is wrong with the first that has the wrong type.
pub open spec fn gamma_scan(list: Seq<PropertyInfo>, n: int) -> Result<
    (Option<u32>, Option<u32>),
    GammaError,
>
    decreases n,
{
    if n <= 0 {
        Ok((None, None))
    } else {
        match gamma_scan(list, n - 1) {
            Err(e) => Err(e),
            Ok(found) => {
                let info = list[n - 1];
                if props::is_named(info.name, "GAMMA_LUT"@) {
                    if info.kind is Blob {
                        Ok((Some(info.handle), found.1))
                    } else {
                        Err(GammaError::WrongLutType)
                    }
                } else if props::is_named(info.name, "GAMMA_LUT_SIZE"@) {
                    if info.kind is UnsignedRange {
                        Ok((found.0, Some(info.handle)))
                    } else {
                        Err(GammaError::WrongLutSizeType)
                    }
                } else {
                    Ok(found)
                }
            },
        }
    }
}

/// The gamma properties of a CRTC.
pub open spec fn gamma_props(list: Seq<PropertyInfo>, crtc: u32) -> Result<GammaProps, GammaError> {
    match gamma_scan(list, list.len() as int) {
        Err(e) => Err(e),
        Ok(found) => match found.0 {
            None => Err(GammaError::MissingLut),
            Some(gamma_lut) => match found.1 {
                None => Err(GammaError::MissingLutSize),
                Some(gamma_lut_size) => Ok(
                    GammaProps { crtc, gamma_lut, gamma_lut_size, previous_blob: None },
                ),
            },
        },
    }
}

proof fn lemma_scan_fails(list: Seq<PropertyInfo>, k: int, n: int)
    requires
        0 <= k <= n,
        gamma_scan(list, k) is Err,
    ensures
        gamma_scan(list, n) == gamma_scan(list, k),
    decreases n - k,
{
    if k < n {
        lemma_scan_fails(list, k, n - 1);
    }
}

/// The number of entries of a gamma table, as its size property reads.
pub open spec fn table_size(list: Seq<PropertyInfo>, props: GammaProps) -> Result<u32, GammaError> {
    match props::value_among(list, props.gamma_lut_size, list.len() as int) {
        Some(value) => Ok((value % 0x1_0000_0000) as u32),
        None => Err(GammaError::MissingLutSize),
    }
}

/// The table words of a ramp that holds all red, then all green, then all blue values: each entry
/// is red, green, blue and a reserved zero.
pub open spec fn table_words(ramp: Seq<u16>, size: int) -> Seq<u16> {
    Seq::new(
        (4 * size) as nat,
        |k: int|
            if k % 4 == 3 {
                0u16
            } else {
                ramp[(k % 4) * size + k / 4]
            },
    )
}

/// Whether the bytes are those of the words, low byte first.
pub open spec fn little_endian(words: Seq<u16>, bytes: Seq<u8>) -> bool {
    &&& bytes.len() == 2 * words.len()
    &&& forall|i: int|
        0 <= i < words.len() ==> bytes[2 * i] == (#[trigger] words[i]) % 256 && bytes[2 * i + 1]
            == words[i] / 256
}

/// Whether the bytes are those of the words, high byte first.
pub open spec fn big_endian(words: Seq<u16>, bytes: Seq<u8>) -> bool {
    &&& bytes.len() == 2 * words.len()
    &&& forall|i: int|
        0 <= i < words.len() ==> bytes[2 * i] == (#[trigger] words[i]) / 256 && bytes[2 * i + 1]
            == words[i] % 256
}

/// Whether the bytes are those of the words in either byte order.
pub open spec fn bytes_of(words: Seq<u16>, bytes: Seq<u8>) -> bool {
    little_endian(words, bytes) || big_endian(words, bytes)
}

/// Trusted: `bytemuck::cast_slice` shows 16-bit words as their bytes, in the byte order of the
/// machine. Which of the two orders that is depends on the machine and is left open.
#[verifier::external_body]
fn words_as_bytes(words: &Vec<u16>) -> (bytes: Vec<u8>)
    ensures
        bytes_of(words@, bytes@),
{
    bytemuck::cast_slice::<u16, u8>(words.as_slice()).to_vec()
}

/// The table words of a ramp.
fn collect_words(ramp: &[u16], size: usize) -> (words: Vec<u16>)
    requires
        ramp@.len() == size * 3,
    ensures
        words@ == table_words(ramp@, size as int),
{
    let mut words: Vec<u16> = Vec::new();
    for i in 0..size
        invariant
            ramp@.len() == size * 3,
            words@.len() == 4 * i,
            forall|k: int|
                0 <= k < 4 * i ==> #[trigger] words@[k] == table_words(ramp@, size as int)[k],
    {
        let ghost before = words@;
        words.push(ramp[i]);
        words.push(ramp[size + i]);
        words.push(ramp[size + size + i]);
        words.push(0);
        proof {
            let all = table_words(ramp@, size as int);
            assert forall|k: int| 0 <= k < 4 * (i + 1) implies #[trigger] words@[k] == all[k] by {
                if k < 4 * i {
                    assert(words@[k] == before[k]);
                } else {
                    let part = k - 4 * i;
                    assert(k % 4 == part && k / 4 == i);
                    assert(part == 0 || part == 1 || part == 2 || part == 3);
                    assert(0 * size + i == i && 1 * size + i == size + i && 2 * size + i == size
                        + size + i);
                }
            }
        }
    }
    assert(words@ =~= table_words(ramp@, size as int));
    words
}

impl GammaProps {
    /// Whether the installed table has an id that the kernel may hand out, as have the CRTC and the
    /// properties.
    pub open spec fn wf(self) -> bool {
        &&& self.crtc != 0
        &&& self.gamma_lut != 0
        &&& self.gamma_lut_size != 0
        &&& self.previous_blob matches Some(id) ==> id != 0
    }

    /// Whether the handles and the installed table are ones that the kernel may hand out.
    pub fn is_valid(&self) -> (yes: bool)
        ensures
            yes == self.wf(),
    {
        self.crtc != 0 && self.gamma_lut != 0 && self.gamma_lut_size != 0
            && match self.previous_blob {
            Some(id) => id != 0,
            None => true,
        }
    }

    /// Finds the gamma properties of a CRTC.
    pub fn new(list: &[PropertyInfo], crtc: u32) -> (found: Result<Self, GammaError>)
        ensures
            found == gamma_props(list@, crtc),
    {
        let lut_name = "GAMMA_LUT".to_owned();
        let size_name = "GAMMA_LUT_SIZE".to_owned();
        let mut gamma_lut: Option<u32> = None;
        let mut gamma_lut_size: Option<u32> = None;
        for i in 0..list.len()
            invariant
                lut_name@ == "GAMMA_LUT"@,
                size_name@ == "GAMMA_LUT_SIZE"@,
                gamma_scan(list@, i as int) == Ok::<(Option<u32>, Option<u32>), GammaError>(
                    (gamma_lut, gamma_lut_size),
                ),
        {
            let info = &list[i];
            if let Some(name) = &info.name {
                if *name == lut_name {
                    match info.kind {
                        PropertyKind::Blob => {
                            gamma_lut = Some(info.handle);
                        },
                        _ => {
                            proof {
                                assert(gamma_scan(list@, i + 1) is Err);
                                lemma_scan_fails(list@, i + 1, list@.len() as int);
                            }
                            return Err(GammaError::WrongLutType);
                        },
                    }
                } else if *name == size_name {
                    match info.kind {
                        PropertyKind::UnsignedRange => {
                            gamma_lut_size = Some(info.handle);
                        },
                        _ => {
                            proof {
                                assert(gamma_scan(list@, i + 1) is Err);
                                lemma_scan_fails(list@, i + 1, list@.len() as int);
                            }
                            return Err(GammaError::WrongLutSizeType);
                        },
                    }
                }
            }
        }
        match gamma_lut {
            None => Err(GammaError::MissingLut),
            Some(gamma_lut) => match gamma_lut_size {
                None => Err(GammaError::MissingLutSize),
                Some(gamma_lut_size) => Ok(
                    GammaProps { crtc, gamma_lut, gamma_lut_size, previous_blob: None },
                ),
            },
        }
    }

    /// The number of entries of the CRTC's gamma table.
    pub fn gamma_size(&self, list: &[PropertyInfo]) -> (size: Result<u32, GammaError>)
        ensures
            size == table_size(list@, *self),
    {
        match get_drm_property(list, self.gamma_lut_size) {
            Some(value) => Ok((value % 0x1_0000_0000) as u32),
            None => Err(GammaError::MissingLutSize),
        }
    }

    /// The contents of the blob that holds a gamma ramp; none are needed to clear the table.
    pub fn create_blob(&self, list: &[PropertyInfo], gamma: Option<&[u16]>) -> (data: Result<
        Option<Vec<u8>>,
        GammaError,
    >)
        ensures
            match gamma {
                None => data == Ok::<Option<Vec<u8>>, GammaError>(None),
                Some(ramp) => match table_size(list@, *self) {
                    Err(_) => data == Err::<Option<Vec<u8>>, GammaError>(GammaError::SizeUnknown),
                    Ok(size) => if ramp@.len() != size * 3 {
                        data == Err::<Option<Vec<u8>>, GammaError>(GammaError::WrongLength)
                    } else {
                        data matches Ok(Some(bytes)) && bytes_of(
                            table_words(ramp@, size as int),
                            bytes@,
                        )
                    },
                },
            },
    {
        let ramp = match gamma {
            Some(ramp) => ramp,
            None => {
                return Ok(None);
            },
        };
        let size: u32 = match self.gamma_size(list) {
            Ok(size) => size,
            Err(_) => {
                return Err(GammaError::SizeUnknown);
            },
        };
        if ramp.len() as u64 != size as u64 * 3 {
            return Err(GammaError::WrongLength);
        }
        let words = collect_words(ramp, size as usize);
        Ok(Some(words_as_bytes(&words)))
    }

    /// The blob that the kernel made: it hands out no id zero.
    pub fn created_blob(blob_id: u32) -> (blob: Option<u64>)
        ensures
            blob == (if blob_id != 0 {
                Some(blob_id as u64)
            } else {
                None
            }),
    {
        if blob_id != 0 {
            Some(blob_id as u64)
        } else {
            None
        }
    }

    /// The setting that shows the given blob's table.
    pub open spec fn shows(self, blob: Option<u64>) -> Setting {
        Setting { object: self.crtc, property: self.gamma_lut, value: blob_value(blob) }
    }

    /// Adds the setting that shows the given blob's table.
    pub fn add_blob_to_request(&self, settings: &mut Vec<Setting>, blob: Option<u64>)
        ensures
            final(settings)@ == old(settings)@.push(self.shows(blob)),
    {
        let value: u64 = match blob {
            Some(id) => id,
            None => 0,
        };
        settings.push(Setting { object: self.crtc, property: self.gamma_lut, value });
    }

    /// The table property and the installed blob, zero standing for none.
    pub fn current_blob_property(&self) -> (property: (u32, u64))
        ensures
            property == (self.gamma_lut, blob_value(self.previous_blob)),
    {
        match self.previous_blob {
            Some(id) => (self.gamma_lut, id),
            None => (self.gamma_lut, 0),
        }
    }

    /// Takes note of the blob that is shown from now on; returns the one to destroy.
    pub fn install_blob(&mut self, blob: Option<u64>) -> (destroy: Option<u64>)
        ensures
            destroy == old(self).previous_blob,
            *final(self) == (GammaProps { previous_blob: blob, ..*old(self) }),
    {
        let destroy = self.previous_blob;
        self.previous_blob = blob;
        destroy
    }

    pub fn previous_blob(&self) -> (blob: Option<u64>)
        ensures
            blob == self.previous_blob,
    {
        self.previous_blob
    }

    /// Takes note of whether the kernel accepted a new table; returns the blob to destroy: the old
    /// one where it did, the new one where it did not.
    pub fn set_gamma(&mut self, blob: Option<u64>, accepted: bool) -> (destroy: Option<u64>)
        ensures
            accepted ==> destroy == old(self).previous_blob && *final(self) == (GammaProps {
                previous_blob: blob,
                ..*old(self)
            }),
            !accepted ==> destroy == blob && *final(self) == *old(self),
    {
        if accepted {
            self.install_blob(blob)
        } else {
            blob
        }
    }

    /// The setting that shows the installed table again.
    pub fn restore_gamma(&self) -> (setting: Setting)
        ensures
            setting == self.shows(self.previous_blob),
    {
        let (property, value) = self.current_blob_property();
        Setting { object: self.crtc, property, value }
    }

    /// Gives up the installed table; returns the blob to destroy.
    pub fn destroy(&mut self) -> (destroy: Option<u64>)
        ensures
            destroy == old(self).previous_blob,
            *final(self) == (GammaProps { previous_blob: None, ..*old(self) }),
    {
        self.install_blob(None)
    }
}

// ---------------------------------------------------------------------------------------------
// Gamma of a tiled group
// ---------------------------------------------------------------------------------------------

/// The table size of both members, where they agree.
pub open spec fn agreed_size(left: u32, right: u32) -> Result<u32, GammaError> {
    if left == right {
        Ok(left)
    } else {
        Err(GammaError::IncompatibleSizes { left, right })
    }
}

/// The table size of both members, where they agree.
pub fn matching_tiled_gamma_size(sizes: [u32; 2]) -> (size: Result<u32, GammaError>)
    ensures
        size == agreed_size(sizes@[0], sizes@[1]),
{
    if sizes[0] == sizes[1] {
        Ok(sizes[0])
    } else {
        Err(GammaError::IncompatibleSizes { left: sizes[0], right: sizes[1] })
    }
}

/// The gamma table size of a tiled group.
pub open spec fn group_table_size(
    left: Option<GammaProps>,
    left_list: Seq<PropertyInfo>,
    right: Option<GammaProps>,
    right_list: Seq<PropertyInfo>,
) -> Result<u32, GammaError> {
    match left {
        None => Err(GammaError::LeftUnsupported),
        Some(l) => match right {
            None => Err(GammaError::RightUnsupported),
            Some(r) => match table_size(left_list, l) {
                Err(e) => Err(e),
                Ok(left_size) => match table_size(right_list, r) {
                    Err(e) => Err(e),
                    Ok(right_size) => agreed_size(left_size, right_size),
                },
            },
        },
    }
}

/// The gamma table size of a tiled group, from the gamma properties of its members and the current
/// properties of their CRTCs.
pub fn tiled_gamma_size(
    left: Option<GammaProps>,
    left_list: &[PropertyInfo],
    right: Option<GammaProps>,
    right_list: &[PropertyInfo],
) -> (size: Result<u32, GammaError>)
    ensures
        size == group_table_size(left, left_list@, right, right_list@),
{
    let l = match left {
        Some(l) => l,
        None => {
            return Err(GammaError::LeftUnsupported);
        },
    };
    let r = match right {
        Some(r) => r,
        None => {
            return Err(GammaError::RightUnsupported);
        },
    };
    let left_size: u32 = match l.gamma_size(left_list) {
        Ok(size) => size,
        Err(e) => {
            return Err(e);
        },
    };
    let right_size: u32 = match r.gamma_size(right_list) {
        Ok(size) => size,
        Err(e) => {
            return Err(e);
        },
    };
    matching_tiled_gamma_size([left_size, right_size])
}

/// Checks a ramp before either CRTC is changed, and returns the contents of the blob that each
/// member needs for it; none are needed to clear the tables.
pub fn tiled_gamma_data(
    left: Option<GammaProps>,
    left_list: &[PropertyInfo],
    right: Option<GammaProps>,
    right_list: &[PropertyInfo],
    ramp: Option<&[u16]>,
) -> (data: Result<Option<Vec<u8>>, GammaError>)
    ensures
        match group_table_size(left, left_list@, right, right_list@) {
            Err(e) => data == Err::<Option<Vec<u8>>, GammaError>(e),
            Ok(size) => match ramp {
                None => data == Ok::<Option<Vec<u8>>, GammaError>(None),
                Some(values) => if size == 0 {
                    data == Err::<Option<Vec<u8>>, GammaError>(GammaError::Unsupported)
                } else if values@.len() != size * 3 {
                    data == Err::<Option<Vec<u8>>, GammaError>(GammaError::WrongLength)
                } else {
                    data matches Ok(Some(bytes)) && bytes_of(
                        table_words(values@, size as int),
                        bytes@,
                    )
                },
            },
        },
{
    let size: u32 = match tiled_gamma_size(left, left_list, right, right_list) {
        Ok(size) => size,
        Err(e) => {
            return Err(e);
        },
    };
    let values = match ramp {
        Some(values) => values,
        None => {
            return Ok(None);
        },
    };
    if size == 0 {
        return Err(GammaError::Unsupported);
    }
    if values.len() as u64 != size as u64 * 3 {
        return Err(GammaError::WrongLength);
    }
    let words = collect_words(values, size as usize);
    Ok(Some(words_as_bytes(&words)))
}

/// The settings that show the given blobs' tables on both members.
pub open spec fn gamma_settings(
    left: GammaProps,
    left_blob: Option<u64>,
    right: GammaProps,
    right_blob: Option<u64>,
) -> Seq<Setting> {
    seq![left.shows(left_blob), right.shows(right_blob)]
}

/// The request that shows the given blobs' tables on both members at once.
pub fn tiled_gamma_request(
    left: &GammaProps,
    left_blob: Option<u64>,
    right: &GammaProps,
    right_blob: Option<u64>,
) -> (req: AtomicModeReq)
    requires
        left.wf(),
        right.wf(),
    ensures
        request::request_properties(req) == request::applied(
            gamma_settings(*left, left_blob, *right, right_blob),
        ),
{
    let mut settings: Vec<Setting> = Vec::new();
    left.add_blob_to_request(&mut settings, left_blob);
    right.add_blob_to_request(&mut settings, right_blob);
    assert(settings@ =~= gamma_settings(*left, left_blob, *right, right_blob));
    request_of(&settings)
}

/// The request that shows the installed tables of both members again, or why there is none.
pub fn restore_tiled_gamma(left: Option<GammaProps>, right: Option<GammaProps>) -> (req: Result<
    AtomicModeReq,
    GammaError,
>)
    requires
        left matches Some(l) ==> l.wf(),
        right matches Some(r) ==> r.wf(),
    ensures
        match (left, right) {
            (None, _) => req matches Err(e) && e == GammaError::LeftUnsupported,
            (Some(_), None) => req matches Err(e) && e == GammaError::RightUnsupported,
            (Some(l), Some(r)) => req matches Ok(q) && request::request_properties(q)
                == request::applied(
                gamma_settings(l, l.previous_blob, r, r.previous_blob),
            ),
        },
{
    match left {
        None => Err(GammaError::LeftUnsupported),
        Some(l) => match right {
            None => Err(GammaError::RightUnsupported),
            Some(r) => Ok(tiled_gamma_request(&l, l.previous_blob, &r, r.previous_blob)),
        },
    }
}

/// How far a change of a tiled group's gamma got: the blobs that were made, and whether the kernel
/// accepted them.
#[derive(Debug, Clone, Copy, PartialEq, Eq)]
pub enum TiledGammaOutcome {
    LeftFailed,
    RightFailed { left: Option<u64> },
    Refused { left: Option<u64>, right: Option<u64> },
    Accepted { left: Option<u64>, right: Option<u64> },
}

/// An optional blob as a list.
pub open spec fn blob_list(blob: Option<u64>) -> Seq<u64> {
    match blob {
        Some(id) => seq![id],
        None => Seq::empty(),
    }
}

/// The blobs that a change made.
pub open spec fn made_blobs(outcome: TiledGammaOutcome) -> Seq<u64> {
    match outcome {
        TiledGammaOutcome::LeftFailed => Seq::empty(),
        TiledGammaOutcome::RightFailed { left } => blob_list(left),
        TiledGammaOutcome::Refused { left, right } => blob_list(left) + blob_list(right),
        TiledGammaOutcome::Accepted { left, right } => blob_list(left) + blob_list(right),
    }
}

/// The blobs that are installed on the two members.
pub open spec fn installed_blobs(left: GammaProps, right: GammaProps) -> Seq<u64> {
    blob_list(left.previous_blob) + blob_list(right.previous_blob)
}

/// The members and the blobs to destroy after a change: new tables are installed, and old ones
/// destroyed, only where the kernel accepted both; else every blob that was made is destroyed.
pub open spec fn gamma_after(
    left: GammaProps,
    right: GammaProps,
    outcome: TiledGammaOutcome,
) -> (GammaProps, GammaProps, Seq<u64>) {
    match outcome {
        TiledGammaOutcome::Accepted { left: left_blob, right: right_blob } => (
            GammaProps { previous_blob: left_blob, ..left },
            GammaProps { previous_blob: right_blob, ..right },
            installed_blobs(left, right),
        ),
        _ => (left, right, made_blobs(outcome)),
    }
}

fn push_blob(list: &mut Vec<u64>, blob: Option<u64>)
    ensures
        final(list)@ == old(list)@ + blob_list(blob),
{
    if let Some(id) = blob {
        list.push(id);
    }
    assert(list@ =~= old(list)@ + blob_list(blob));
}

/// Takes note of how a change of a tiled group's gamma ended; returns the blobs to destroy.
pub fn set_tiled_gamma(
    left: &mut GammaProps,
    right: &mut GammaProps,
    outcome: TiledGammaOutcome,
) -> (destroy: Vec<u64>)
    ensures
        (*final(left), *final(right), destroy@) == gamma_after(*old(left), *old(right), outcome),
{
    let mut destroy: Vec<u64> = Vec::new();
    match outcome {
        TiledGammaOutcome::LeftFailed => {},
        TiledGammaOutcome::RightFailed { left: left_blob } => {
            push_blob(&mut destroy, left_blob);
        },
        TiledGammaOutcome::Refused { left: left_blob, right: right_blob } => {
            push_blob(&mut destroy, left_blob);
            push_blob(&mut destroy, right_blob);
        },
        TiledGammaOutcome::Accepted { left: left_blob, right: right_blob } => {
            let old_left = left.install_blob(left_blob);
            push_blob(&mut destroy, old_left);
            let old_right = right.install_blob(right_blob);
            push_blob(&mut destroy, old_right);
        },
    }
    assert(destroy@ =~= gamma_after(*old(left), *old(right), outcome).2);
    destroy
}

/// Gives up the installed tables of both members; returns the blobs to destroy.
pub fn destroy_tiled_gamma_blobs(
    left: &mut Option<GammaProps>,
    right: &mut Option<GammaProps>,
) -> (destroy: Vec<u64>)
    ensures
        destroy@ == (match *old(left) {
            Some(l) => blob_list(l.previous_blob),
            None => Seq::empty(),
        }) + (match *old(right) {
            Some(r) => blob_list(r.previous_blob),
            None => Seq::empty(),
        }),
        *final(left) == (match *old(left) {
            Some(l) => Some(GammaProps { previous_blob: None, ..l }),
            None => None,
        }),
        *final(right) == (match *old(right) {
            Some(r) => Some(GammaProps { previous_blob: None, ..r }),
            None => None,
        }),
{
    let mut destroy: Vec<u64> = Vec::new();
    if let Some(l) = *left {
        let mut l = l;
        let blob = l.destroy();
        push_blob(&mut destroy, blob);
        *left = Some(l);
    }
    let ghost first = destroy@;
    if let Some(r) = *right {
        let mut r = r;
        let blob = r.destroy();
        push_blob(&mut destroy, blob);
        *right = Some(r);
    }
    proof {
        let l = match *old(left) {
            Some(l) => blob_list(l.previous_blob),
            None => Seq::empty(),
        };
        let r = match *old(right) {
            Some(r) => blob_list(r.previous_blob),
            None => Seq::empty(),
        };
        assert(first =~= l);
        assert(destroy@ =~= l + r);
    }
    destroy
}

/// No blob is leaked or destroyed twice: what was installed and what was made is what is installed
/// and what is destroyed.
pub proof fn law_gamma_blobs_are_accounted_for(
    left: GammaProps,
    right: GammaProps,
    outcome: TiledGammaOutcome,
)
    ensures
        ({
            let after = gamma_after(left, right, outcome);
            (installed_blobs(left, right) + made_blobs(outcome)).to_multiset() == (installed_blobs(
                after.0,
                after.1,
            ) + after.2).to_multiset()
        }),
{
    let before = installed_blobs(left, right);
    let made = made_blobs(outcome);
    vstd::seq_lib::lemma_multiset_commutative(before, made);
    vstd::seq_lib::lemma_multiset_commutative(made, before);
    assert((before + made).to_multiset() =~= (made + before).to_multiset());
}

/// Where the kernel did not accept the change, both members keep their tables.
pub proof fn law_refused_gamma_changes_nothing(
    left: GammaProps,
    right: GammaProps,
    outcome: TiledGammaOutcome,
)
    requires
        !(outcome is Accepted),
    ensures
        gamma_after(left, right, outcome).0 == left,
        gamma_after(left, right, outcome).1 == right,
{
}

/// A gamma table interleaves the three ramps: entry `i` holds the red, the green and the blue value
/// at `i`, which the ramp lists one colour after the other, and a reserved word of zero.
pub proof fn law_tables_interleave_red_green_and_blue(ramp: Seq<u16>, size: int, i: int)
    requires
        0 <= i < size,
        ramp.len() == 3 * size,
    ensures
        table_words(ramp, size).len() == 4 * size,
        table_words(ramp, size)[4 * i] == ramp[i],
        table_words(ramp, size)[4 * i + 1] == ramp[size + i],
        table_words(ramp, size)[4 * i + 2] == ramp[2 * size + i],
        table_words(ramp, size)[4 * i + 3] == 0,
{
    assert((4 * i) % 4 == 0 && (4 * i) / 4 == i);
    assert((4 * i + 1) % 4 == 1 && (4 * i + 1) / 4 == i);
    assert((4 * i + 2) % 4 == 2 && (4 * i + 2) / 4 == i);
    assert((4 * i + 3) % 4 == 3);
}

/// The gamma properties of a CRTC are a blob named `GAMMA_LUT` and a range named `GAMMA_LUT_SIZE`:
/// where each name occurs once and with that kind, their handles are found, with no blob installed.
pub proof fn law_gamma_properties_are_found_by_name(
    list: Seq<PropertyInfo>,
    crtc: u32,
    lut: int,
    size: int,
)
    requires
        0 <= lut < list.len(),
        0 <= size < list.len(),
        props::is_named(list[lut].name, "GAMMA_LUT"@),
        props::is_named(list[size].name, "GAMMA_LUT_SIZE"@),
        forall|j: int|
            0 <= j < list.len() && j != lut ==> !props::is_named(
                (#[trigger] list[j]).name,
                "GAMMA_LUT"@,
            ),
        forall|j: int|
            0 <= j < list.len() && j != size ==> !props::is_named(
                (#[trigger] list[j]).name,
                "GAMMA_LUT_SIZE"@,
            ),
    ensures
        list[lut].kind is Blob && list[size].kind is UnsignedRange ==> gamma_props(list, crtc)
            == Ok::<GammaProps, GammaError>(
            GammaProps {
                crtc,
                gamma_lut: list[lut].handle,
                gamma_lut_size: list[size].handle,
                previous_blob: None,
            },
        ),
        !(list[lut].kind is Blob) || !(list[size].kind is UnsignedRange) ==> gamma_props(list, crtc)
            is Err,
{
    reveal_strlit("GAMMA_LUT");
    reveal_strlit("GAMMA_LUT_SIZE");
    assert("GAMMA_LUT"@.len() != "GAMMA_LUT_SIZE"@.len());
    lemma_gamma_scan_of(list, lut, size, list.len() as int);
}

proof fn lemma_gamma_scan_of(list: Seq<PropertyInfo>, lut: int, size: int, n: int)
    requires
        0 <= n <= list.len(),
        0 <= lut < list.len(),
        0 <= size < list.len(),
        lut != size,
        "GAMMA_LUT"@ != "GAMMA_LUT_SIZE"@,
        props::is_named(list[lut].name, "GAMMA_LUT"@),
        props::is_named(list[size].name, "GAMMA_LUT_SIZE"@),
        forall|j: int|
            0 <= j < list.len() && j != lut ==> !props::is_named(
                (#[trigger] list[j]).name,
                "GAMMA_LUT"@,
            ),
        forall|j: int|
            0 <= j < list.len() && j != size ==> !props::is_named(
                (#[trigger] list[j]).name,
                "GAMMA_LUT_SIZE"@,
            ),
    ensures
        gamma_scan(list, n) == (if lut < n && !(list[lut].kind is Blob) && (size >= n || lut < size
            || list[size].kind is UnsignedRange) {
            Err::<(Option<u32>, Option<u32>), GammaError>(GammaError::WrongLutType)
        } else if size < n && !(list[size].kind is UnsignedRange) {
            Err(GammaError::WrongLutSizeType)
        } else {
            Ok(
                (
                    if lut < n {
                        Some(list[lut].handle)
                    } else {
                        None
                    },
                    if size < n {
                        Some(list[size].handle)
                    } else {
                        None
                    },
                ),
            )
        }),
    decreases n,
{
    if n > 0 {
        lemma_gamma_scan_of(list, lut, size, n - 1);
        assert(props::is_named(list[n - 1].name, "GAMMA_LUT"@) <==> n - 1 == lut);
        assert(props::is_named(list[n - 1].name, "GAMMA_LUT_SIZE"@) <==> n - 1 == size);
    }
}

/// A CRTC without a property named `GAMMA_LUT`, or without one named `GAMMA_LUT_SIZE`, has no gamma
/// properties.
pub proof fn law_gamma_needs_both_properties(list: Seq<PropertyInfo>, crtc: u32)
    ensures
        (forall|j: int|
            0 <= j < list.len() ==> !props::is_named((#[trigger] list[j]).name, "GAMMA_LUT"@))
            ==> gamma_props(list, crtc) is Err,
        (forall|j: int|
            0 <= j < list.len() ==> !props::is_named((#[trigger] list[j]).name, "GAMMA_LUT_SIZE"@))
            ==> gamma_props(list, crtc) is Err,
        gamma_props(list, crtc) matches Ok(found) ==> found.crtc == crtc && found.previous_blob
            is None,
{
    lemma_gamma_scan_needs(list, list.len() as int);
}

proof fn lemma_gamma_scan_needs(list: Seq<PropertyInfo>, n: int)
    requires
        0 <= n <= list.len(),
    ensures
        gamma_scan(list, n) matches Ok(found) ==> {
            &&& found.0 is Some ==> exists|j: int|
                0 <= j < n && props::is_named((#[trigger] list[j]).name, "GAMMA_LUT"@)
                    && found.0 == Some(list[j].handle)
            &&& found.1 is Some ==> exists|j: int|
                0 <= j < n && props::is_named((#[trigger] list[j]).name, "GAMMA_LUT_SIZE"@)
                    && found.1 == Some(list[j].handle)
        },
    decreases n,
{
    if n > 0 {
        lemma_gamma_scan_needs(list, n - 1);
        if gamma_scan(list, n - 1) is Ok {
            assert(list[n - 1] == list[n - 1]);
        }
    }
}

/// The size of a gamma table is the value of the size property, cut to 32 bits; without the
/// property the size is unknown.
pub proof fn law_table_sizes_are_read_from_the_size_property(
    list: Seq<PropertyInfo>,
    props: GammaProps,
    i: int,
)
    requires
        0 <= i < list.len(),
        list[i].handle == props.gamma_lut_size,
        forall|j: int|
            0 <= j < i ==> (#[trigger] list[j]).handle != props.gamma_lut_size,
    ensures
        table_size(list, props) is Ok,
        table_size(list, props)->Ok_0 == list[i].value as int % 0x1_0000_0000,
        list[i].value <= u32::MAX ==> table_size(list, props) == Ok::<u32, GammaError>(
            list[i].value as u32,
        ),
{
    props::law_values_are_found_by_handle(list, props.gamma_lut_size, i);
}

/// Both members of a group must have tables of one size, which is then the size of the group.
pub proof fn law_group_tables_have_one_size(left: u32, right: u32)
    ensures
        agreed_size(left, right) is Ok <==> left == right,
        left == right ==> agreed_size(left, right) == Ok::<u32, GammaError>(left),
        left != right ==> agreed_size(left, right) == Err::<u32, GammaError>(
            GammaError::IncompatibleSizes { left, right },
        ),
{
}

/// A group has a table size exactly when both members support gamma and have tables of one size;
/// the left member is looked at first.
pub proof fn law_group_gamma_needs_both_members(
    left: Option<GammaProps>,
    left_list: Seq<PropertyInfo>,
    right: Option<GammaProps>,
    right_list: Seq<PropertyInfo>,
)
    ensures
        ({
            let size = group_table_size(left, left_list, right, right_list);
            &&& left is None ==> size == Err::<u32, GammaError>(GammaError::LeftUnsupported)
            &&& left is Some && right is None ==> size == Err::<u32, GammaError>(
                GammaError::RightUnsupported,
            )
            &&& size matches Ok(n) ==> {
                &&& left matches Some(l) && table_size(left_list, l) == Ok::<u32, GammaError>(n)
                &&& right matches Some(r) && table_size(right_list, r) == Ok::<u32, GammaError>(n)
            }
            &&& left matches Some(l) ==> (right matches Some(r) ==> (table_size(left_list, l)
                matches Ok(n) ==> (table_size(right_list, r) == Ok::<u32, GammaError>(n) ==> size
                == Ok::<u32, GammaError>(n))))
        }),
{
}

/// A gamma change of a group shows the left table on the left CRTC and the right table on the right
/// one, in one request; a member without a table shows none.
pub proof fn law_gamma_requests_reach_both_crtcs(
    left: GammaProps,
    left_blob: Option<u64>,
    right: GammaProps,
    right_blob: Option<u64>,
)
    requires
        left.crtc != right.crtc,
    ensures
        ({
            let set = request::applied(gamma_settings(left, left_blob, right, right_blob));
            &&& set.contains_key((left.crtc, left.gamma_lut))
            &&& set.contains_key((right.crtc, right.gamma_lut))
            &&& set[(left.crtc, left.gamma_lut)] == (match left_blob {
                Some(id) => id,
                None => 0,
            })
            &&& set[(right.crtc, right.gamma_lut)] == (match right_blob {
                Some(id) => id,
                None => 0,
            })
            &&& forall|object: u32, property: u32| #[trigger]
                set.contains_key((object, property)) ==> (object, property) == (
                    left.crtc,
                    left.gamma_lut,
                ) || (object, property) == (right.crtc, right.gamma_lut)
        }),
{
    let settings = gamma_settings(left, left_blob, right, right_blob);
    request::law_last_setting_wins(settings, 0);
    request::law_last_setting_wins(settings, 1);
    assert forall|object: u32, property: u32| #[trigger]
        request::applied(settings).contains_key((object, property)) implies (object, property) == (
        left.crtc,
        left.gamma_lut,
    ) || (object, property) == (right.crtc, right.gamma_lut) by {
        request::law_only_named_properties_are_set(settings, object, property);
    }
}

/// An accepted change installs the new table of each member on that member and gives back the old
/// ones; a change that fails gives back what was made for it.
pub proof fn law_accepted_gamma_is_installed(
    left: GammaProps,
    right: GammaProps,
    left_blob: Option<u64>,
    right_blob: Option<u64>,
)
    ensures
        ({
            let after = gamma_after(
                left,
                right,
                TiledGammaOutcome::Accepted { left: left_blob, right: right_blob },
            );
            &&& after.0 == (GammaProps { previous_blob: left_blob, ..left })
            &&& after.1 == (GammaProps { previous_blob: right_blob, ..right })
            &&& left.previous_blob matches Some(id) ==> after.2.contains(id)
            &&& right.previous_blob matches Some(id) ==> after.2.contains(id)
            &&& forall|id: u64| #[trigger]
                after.2.contains(id) ==> left.previous_blob == Some(id) || right.previous_blob
                    == Some(id)
        }),
        ({
            let refused = gamma_after(
                left,
                right,
                TiledGammaOutcome::Refused { left: left_blob, right: right_blob },
            );
            &&& left_blob matches Some(id) ==> refused.2.contains(id)
            &&& right_blob matches Some(id) ==> refused.2.contains(id)
            &&& forall|id: u64| #[trigger]
                refused.2.contains(id) ==> left_blob == Some(id) || right_blob == Some(id)
        }),
        ({
            let failed = gamma_after(
                left,
                right,
                TiledGammaOutcome::RightFailed { left: left_blob },
            );
            &&& left_blob matches Some(id) ==> failed.2.contains(id)
            &&& forall|id: u64| #[trigger] failed.2.contains(id) ==> left_blob == Some(id)
        }),
        gamma_after(left, right, TiledGammaOutcome::LeftFailed).2.len() == 0,
{
    let after = gamma_after(
        left,
        right,
        TiledGammaOutcome::Accepted { left: left_blob, right: right_blob },
    );
    let refused = gamma_after(
        left,
        right,
        TiledGammaOutcome::Refused { left: left_blob, right: right_blob },
    );
    let failed = gamma_after(left, right, TiledGammaOutcome::RightFailed { left: left_blob });
    lemma_blob_lists(left.previous_blob, right.previous_blob);
    lemma_blob_lists(left_blob, right_blob);
    if let Some(id) = left_blob {
        assert(failed.2[0] == id);
    }
}

proof fn lemma_blob_lists(a: Option<u64>, b: Option<u64>)
    ensures
        a matches Some(id) ==> (blob_list(a) + blob_list(b)).contains(id),
        b matches Some(id) ==> (blob_list(a) + blob_list(b)).contains(id),
        forall|id: u64| #[trigger]
            (blob_list(a) + blob_list(b)).contains(id) ==> a == Some(id) || b == Some(id),
{
    let both = blob_list(a) + blob_list(b);
    if let Some(id) = a {
        assert(both[0] == id);
    }
    if let Some(id) = b {
        assert(both[blob_list(a).len() as int] == id);
    }
}

/// Without the size property the size of a gamma table is unknown.
pub proof fn law_table_sizes_need_the_size_property(list: Seq<PropertyInfo>, props: GammaProps)
    requires
        forall|j: int| 0 <= j < list.len() ==> (#[trigger] list[j]).handle != props.gamma_lut_size,
    ensures
        table_size(list, props) == Err::<u32, GammaError>(GammaError::MissingLutSize),
{
    props::law_values_are_found_by_handle(list, props.gamma_lut_size, 0);
}

} // verus!
