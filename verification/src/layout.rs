//! Geometry of a display group in post-transform physical pixels.

use vstd::prelude::*;

verus! {

/// Groups are bounded so that frame completion fits a compact member mask.
pub const MAX_GROUP_MEMBERS: usize = 4;

#[derive(Debug, Clone, Copy, PartialEq, Eq, Structural)]
pub struct MemberSize {
    pub width: u32,
    pub height: u32,
}

#[derive(Debug, Clone, Copy, PartialEq, Eq, Structural)]
pub struct MemberRect {
    pub x: u32,
    pub y: u32,
    pub width: u32,
    pub height: u32,
}

impl MemberRect {
    /// First column right of the rectangle, unless it does not fit `u32`.
    pub fn right(self) -> (edge: Option<u32>)
        ensures
            edge == (if self.x + self.width <= u32::MAX {
                Some((self.x + self.width) as u32)
            } else {
                None
            }),
    {
        self.x.checked_add(self.width)
    }

    /// First row below the rectangle, unless it does not fit `u32`.
    pub fn bottom(self) -> (edge: Option<u32>)
        ensures
            edge == (if self.y + self.height <= u32::MAX {
                Some((self.y + self.height) as u32)
            } else {
                None
            }),
    {
        self.y.checked_add(self.height)
    }

    /// Whether two rectangles share area; an edge beyond `u32` counts as `u32::MAX`.
    pub fn overlaps(self, other: Self) -> (shared: bool)
        ensures
            shared == (self.x < clamped(other.x + other.width) && other.x < clamped(
                self.x + self.width,
            ) && self.y < clamped(other.y + other.height) && other.y < clamped(
                self.y + self.height,
            )),
    {
        self.x < other.right().unwrap_or(u32::MAX) && other.x < self.right().unwrap_or(u32::MAX)
            && self.y < other.bottom().unwrap_or(u32::MAX) && other.y < self.bottom().unwrap_or(
            u32::MAX,
        )
    }
}

/// An edge coordinate limited to the largest `u32`.
pub open spec fn clamped(edge: int) -> int {
    if edge <= u32::MAX {
        edge
    } else {
        u32::MAX as int
    }
}

/// A member's post-transform physical size and optional physical-pixel position.
#[derive(Debug, Clone, Copy, PartialEq, Eq)]
pub struct MemberGeometry {
    pub size: MemberSize,
    pub position: Option<(u32, u32)>,
}

/// Why a set of member geometries does not form a group.
#[derive(Debug, Clone, Copy, PartialEq, Eq, Structural)]
pub enum LayoutError {
    MemberCount,
    EmptyMember,
    PartialPositions,
    UnequalHeights,
    WidthOverflow,
    HeightOverflow,
    ProtocolLimit,
    ShiftedOrigin,
    Overlap,
    Gaps,
}

impl LayoutError {
    /// The explanation shown to the user.
    pub open spec fn message(self) -> Seq<char> {
        match self {
            LayoutError::MemberCount => "display-group requires between 2 and 4 members"@,
            LayoutError::EmptyMember => "display-group member sizes must be non-zero"@,
            LayoutError::PartialPositions => "display-group positions must be supplied for every member or omitted for every member"@,
            LayoutError::UnequalHeights => "display-group automatic row layout requires equal member heights; supply explicit positions for a different rectangular arrangement"@,
            LayoutError::WidthOverflow => "display-group width overflows u32"@,
            LayoutError::HeightOverflow => "display-group height overflows u32"@,
            LayoutError::ProtocolLimit => "display-group dimensions exceed the output protocol limit"@,
            LayoutError::ShiftedOrigin => "display-group bounding box must start at (0, 0)"@,
            LayoutError::Overlap => "display-group member rectangles overlap"@,
            LayoutError::Gaps => "display-group member rectangles must cover their bounding rectangle without gaps"@,
        }
    }

    /// The explanation shown to the user.
    pub fn to_string(&self) -> (text: String)
        ensures
            text@ == self.message(),
            *self is MemberCount ==> text@ == "display-group requires between 2 and 4 members"@,
            *self is EmptyMember ==> text@ == "display-group member sizes must be non-zero"@,
            *self is PartialPositions ==> text@ == "display-group positions must be supplied for every member or omitted for every member"@,
            *self is UnequalHeights ==> text@ == "display-group automatic row layout requires equal member heights; supply explicit positions for a different rectangular arrangement"@,
            *self is WidthOverflow ==> text@ == "display-group width overflows u32"@,
            *self is HeightOverflow ==> text@ == "display-group height overflows u32"@,
            *self is ProtocolLimit ==> text@ == "display-group dimensions exceed the output protocol limit"@,
            *self is ShiftedOrigin ==> text@ == "display-group bounding box must start at (0, 0)"@,
            *self is Overlap ==> text@ == "display-group member rectangles overlap"@,
            *self is Gaps ==> text@ == "display-group member rectangles must cover their bounding rectangle without gaps"@,
    {
        let text: &str = match self {
            LayoutError::MemberCount => "display-group requires between 2 and 4 members",
            LayoutError::EmptyMember => "display-group member sizes must be non-zero",
            LayoutError::PartialPositions => "display-group positions must be supplied for every member or omitted for every member",
            LayoutError::UnequalHeights => "display-group automatic row layout requires equal member heights; supply explicit positions for a different rectangular arrangement",
            LayoutError::WidthOverflow => "display-group width overflows u32",
            LayoutError::HeightOverflow => "display-group height overflows u32",
            LayoutError::ProtocolLimit => "display-group dimensions exceed the output protocol limit",
            LayoutError::ShiftedOrigin => "display-group bounding box must start at (0, 0)",
            LayoutError::Overlap => "display-group member rectangles overlap",
            LayoutError::Gaps => "display-group member rectangles must cover their bounding rectangle without gaps",
        };
        text.to_owned()
    }
}

// ---------------------------------------------------------------------------------------------
// Model
// ---------------------------------------------------------------------------------------------

/// Whether the group has between two and four members.
pub open spec fn group_sized(count: nat) -> bool {
    2 <= count <= MAX_GROUP_MEMBERS
}

/// Whether every member has a non-empty area.
pub open spec fn all_sized(ms: Seq<MemberGeometry>) -> bool {
    forall|i: int| 0 <= i < ms.len() ==> (#[trigger] ms[i]).size.width > 0 && ms[i].size.height > 0
}

pub open spec fn all_positioned(ms: Seq<MemberGeometry>) -> bool {
    forall|i: int| 0 <= i < ms.len() ==> (#[trigger] ms[i]).position is Some
}

pub open spec fn none_positioned(ms: Seq<MemberGeometry>) -> bool {
    forall|i: int| 0 <= i < ms.len() ==> (#[trigger] ms[i]).position is None
}

pub open spec fn equal_heights(ms: Seq<MemberGeometry>) -> bool {
    forall|i: int| 0 <= i < ms.len() ==> (#[trigger] ms[i]).size.height == ms[0].size.height
}

/// Summed width of the first `n` members: where member `n` starts in a row.
pub open spec fn row_start(ms: Seq<MemberGeometry>, n: int) -> int
    decreases n,
{
    if n <= 0 {
        0
    } else {
        row_start(ms, n - 1) + ms[n - 1].size.width
    }
}

/// Left edge of member `i`: its own position, or its place in the automatic row.
pub open spec fn left_of(ms: Seq<MemberGeometry>, i: int) -> int {
    match ms[i].position {
        Some(p) => p.0 as int,
        None => row_start(ms, i),
    }
}

/// Top edge of member `i`.
pub open spec fn top_of(ms: Seq<MemberGeometry>, i: int) -> int {
    match ms[i].position {
        Some(p) => p.1 as int,
        None => 0,
    }
}

pub open spec fn right_of(ms: Seq<MemberGeometry>, i: int) -> int {
    left_of(ms, i) + ms[i].size.width
}

pub open spec fn bottom_of(ms: Seq<MemberGeometry>, i: int) -> int {
    top_of(ms, i) + ms[i].size.height
}

/// Whether member `i` contains the pixel at column `px`, row `py`.
pub open spec fn member_has(ms: Seq<MemberGeometry>, i: int, px: int, py: int) -> bool {
    &&& left_of(ms, i) <= px < right_of(ms, i)
    &&& top_of(ms, i) <= py < bottom_of(ms, i)
}

/// Whether members `i` and `j` share at least one pixel.
pub open spec fn members_overlap(ms: Seq<MemberGeometry>, i: int, j: int) -> bool {
    exists|px: int, py: int| #[trigger]
        member_has(ms, i, px, py) && #[trigger] member_has(ms, j, px, py)
}

/// Largest right edge among the first `n` members.
pub open spec fn extent_x(ms: Seq<MemberGeometry>, n: int) -> int
    decreases n,
{
    if n <= 0 {
        0
    } else if right_of(ms, n - 1) > extent_x(ms, n - 1) {
        right_of(ms, n - 1)
    } else {
        extent_x(ms, n - 1)
    }
}

/// Largest bottom edge among the first `n` members.
pub open spec fn extent_y(ms: Seq<MemberGeometry>, n: int) -> int
    decreases n,
{
    if n <= 0 {
        0
    } else if bottom_of(ms, n - 1) > extent_y(ms, n - 1) {
        bottom_of(ms, n - 1)
    } else {
        extent_y(ms, n - 1)
    }
}

/// Width of the bounding rectangle.
pub open spec fn group_width(ms: Seq<MemberGeometry>) -> int {
    extent_x(ms, ms.len() as int)
}

/// Height of the bounding rectangle.
pub open spec fn group_height(ms: Seq<MemberGeometry>) -> int {
    extent_y(ms, ms.len() as int)
}

/// Area of the first `n` members together.
pub open spec fn area_of(ms: Seq<MemberGeometry>, n: int) -> int
    decreases n,
{
    if n <= 0 {
        0
    } else {
        area_of(ms, n - 1) + ms[n - 1].size.width * ms[n - 1].size.height
    }
}

/// What is wrong with the group, in the order in which it is reported; `None` for a valid group.
pub open spec fn layout_error(ms: Seq<MemberGeometry>) -> Option<LayoutError> {
    if !group_sized(ms.len()) {
        Some(LayoutError::MemberCount)
    } else if !all_sized(ms) {
        Some(LayoutError::EmptyMember)
    } else if !all_positioned(ms) && !none_positioned(ms) {
        Some(LayoutError::PartialPositions)
    } else if none_positioned(ms) && !equal_heights(ms) {
        Some(LayoutError::UnequalHeights)
    } else if group_width(ms) > u32::MAX {
        Some(LayoutError::WidthOverflow)
    } else if group_height(ms) > u32::MAX {
        Some(LayoutError::HeightOverflow)
    } else if group_width(ms) > u16::MAX || group_height(ms) > u16::MAX {
        Some(LayoutError::ProtocolLimit)
    } else if !(exists|i: int| 0 <= i < ms.len() && #[trigger] left_of(ms, i) == 0) || !(exists|
        i: int,
    |
        0 <= i < ms.len() && #[trigger] top_of(ms, i) == 0) {
        Some(LayoutError::ShiftedOrigin)
    } else if exists|i: int, j: int|
        0 <= i < j < ms.len() && #[trigger] members_overlap(ms, i, j) {
        Some(LayoutError::Overlap)
    } else if area_of(ms, ms.len() as int) != group_width(ms) * group_height(ms) {
        Some(LayoutError::Gaps)
    } else {
        None
    }
}

/// Whether `rect` is where member `i` is placed.
pub open spec fn placed_at(ms: Seq<MemberGeometry>, i: int, rect: MemberRect) -> bool {
    &&& rect.x == left_of(ms, i)
    &&& rect.y == top_of(ms, i)
    &&& rect.width == ms[i].size.width
    &&& rect.height == ms[i].size.height
}

// ---------------------------------------------------------------------------------------------
// Lemmas
// ---------------------------------------------------------------------------------------------

pub proof fn lemma_extents(ms: Seq<MemberGeometry>, n: int)
    requires
        0 <= n <= ms.len(),
    ensures
        forall|i: int|
            0 <= i < n ==> #[trigger] right_of(ms, i) <= extent_x(ms, n) && bottom_of(ms, i)
                <= extent_y(ms, n),
        0 <= extent_x(ms, n),
        0 <= extent_y(ms, n),
    decreases n,
{
    if n > 0 {
        lemma_extents(ms, n - 1);
    }
}

pub proof fn lemma_extent_y_bounds(ms: Seq<MemberGeometry>, n: int)
    requires
        0 <= n <= ms.len(),
    ensures
        forall|i: int| 0 <= i < n ==> #[trigger] bottom_of(ms, i) <= extent_y(ms, n),
    decreases n,
{
    if n > 0 {
        lemma_extent_y_bounds(ms, n - 1);
    }
}

pub proof fn lemma_row_start_nonneg(ms: Seq<MemberGeometry>, n: int)
    ensures
        row_start(ms, n) >= 0,
    decreases n,
{
    if n > 0 {
        lemma_row_start_nonneg(ms, n - 1);
    }
}

/// Two placed rectangles satisfy the edge comparisons exactly when they share a pixel.
pub proof fn lemma_overlap_by_edges(ms: Seq<MemberGeometry>, i: int, j: int)
    requires
        0 <= i < ms.len(),
        0 <= j < ms.len(),
        all_sized(ms),
    ensures
        members_overlap(ms, i, j) == (left_of(ms, i) < right_of(ms, j) && left_of(ms, j)
            < right_of(ms, i) && top_of(ms, i) < bottom_of(ms, j) && top_of(ms, j) < bottom_of(
            ms,
            i,
        )),
{
    if left_of(ms, i) < right_of(ms, j) && left_of(ms, j) < right_of(ms, i) && top_of(ms, i)
        < bottom_of(ms, j) && top_of(ms, j) < bottom_of(ms, i) {
        let px = if left_of(ms, i) > left_of(ms, j) {
            left_of(ms, i)
        } else {
            left_of(ms, j)
        };
        let py = if top_of(ms, i) > top_of(ms, j) {
            top_of(ms, i)
        } else {
            top_of(ms, j)
        };
        assert(member_has(ms, i, px, py) && member_has(ms, j, px, py));
    }
}

// ---------------------------------------------------------------------------------------------
// Layout
// ---------------------------------------------------------------------------------------------

/// Places every member: at its position, or one after another in a row.
fn place_members(members: &[MemberGeometry]) -> (placed: Result<Vec<MemberRect>, LayoutError>)
    requires
        all_positioned(members@) || none_positioned(members@),
    ensures
        match placed {
            Ok(rects) => rects@.len() == members@.len() && forall|i: int|
                0 <= i < rects@.len() ==> placed_at(members@, i, #[trigger] rects@[i]),
            Err(e) => e == LayoutError::WidthOverflow && group_width(members@) > u32::MAX,
        },
{
    let ghost ms = members@;
    let mut rects: Vec<MemberRect> = Vec::new();
    let mut x: u32 = 0;
    for i in 0..members.len()
        invariant
            ms == members@,
            all_positioned(ms) || none_positioned(ms),
            rects@.len() == i,
            forall|k: int| 0 <= k < i ==> placed_at(ms, k, #[trigger] rects@[k]),
            none_positioned(ms) ==> x == row_start(ms, i as int),
    {
        let member = members[i];
        match member.position {
            Some(p) => {
                rects.push(
                    MemberRect {
                        x: p.0,
                        y: p.1,
                        width: member.size.width,
                        height: member.size.height,
                    },
                );
            },
            None => {
                rects.push(
                    MemberRect { x, y: 0, width: member.size.width, height: member.size.height },
                );
                match x.checked_add(member.size.width) {
                    Some(next) => {
                        x = next;
                    },
                    None => {
                        proof {
                            assert(right_of(ms, i as int) > u32::MAX);
                            lemma_extents(ms, ms.len() as int);
                        }
                        return Err(LayoutError::WidthOverflow);
                    },
                }
            },
        }
    }
    Ok(rects)
}

/// Largest right and bottom edge, or which of the two does not fit `u32`.
fn bounding_size(Ghost(ms): Ghost<Seq<MemberGeometry>>, rects: &Vec<MemberRect>) -> (bounds: Result<
    MemberSize,
    LayoutError,
>)
    requires
        rects@.len() == ms.len(),
        forall|i: int| 0 <= i < rects@.len() ==> placed_at(ms, i, #[trigger] rects@[i]),
    ensures
        match bounds {
            Ok(size) => size.width == group_width(ms) && size.height == group_height(ms),
            Err(e) => if group_width(ms) > u32::MAX {
                e == LayoutError::WidthOverflow
            } else {
                e == LayoutError::HeightOverflow && group_height(ms) > u32::MAX
            },
        },
{
    let mut width: u32 = 0;
    for i in 0..rects.len()
        invariant
            rects@.len() == ms.len(),
            forall|k: int| 0 <= k < rects@.len() ==> placed_at(ms, k, #[trigger] rects@[k]),
            width == extent_x(ms, i as int),
    {
        match rects[i].right() {
            Some(edge) => {
                if edge > width {
                    width = edge;
                }
            },
            None => {
                proof {
                    assert(right_of(ms, i as int) > u32::MAX);
                    lemma_extents(ms, ms.len() as int);
                }
                return Err(LayoutError::WidthOverflow);
            },
        }
    }
    let mut height: u32 = 0;
    for i in 0..rects.len()
        invariant
            rects@.len() == ms.len(),
            forall|k: int| 0 <= k < rects@.len() ==> placed_at(ms, k, #[trigger] rects@[k]),
            width == group_width(ms),
            height == extent_y(ms, i as int),
    {
        match rects[i].bottom() {
            Some(edge) => {
                if edge > height {
                    height = edge;
                }
            },
            None => {
                proof {
                    assert(bottom_of(ms, i as int) > u32::MAX);
                    lemma_extent_y_bounds(ms, ms.len() as int);
                }
                return Err(LayoutError::HeightOverflow);
            },
        }
    }
    Ok(MemberSize { width, height })
}

/// Whether some member touches the left edge and some member touches the top edge.
fn starts_at_origin(Ghost(ms): Ghost<Seq<MemberGeometry>>, rects: &Vec<MemberRect>) -> (starts: bool)
    requires
        rects@.len() == ms.len(),
        forall|i: int| 0 <= i < rects@.len() ==> placed_at(ms, i, #[trigger] rects@[i]),
    ensures
        starts == ((exists|i: int| 0 <= i < ms.len() && #[trigger] left_of(ms, i) == 0) && (exists|
            i: int,
        |
            0 <= i < ms.len() && #[trigger] top_of(ms, i) == 0)),
{
    let mut at_left = false;
    let mut at_top = false;
    for i in 0..rects.len()
        invariant
            rects@.len() == ms.len(),
            forall|k: int| 0 <= k < rects@.len() ==> placed_at(ms, k, #[trigger] rects@[k]),
            at_left == (exists|k: int| 0 <= k < i && #[trigger] left_of(ms, k) == 0),
            at_top == (exists|k: int| 0 <= k < i && #[trigger] top_of(ms, k) == 0),
    {
        assert(placed_at(ms, i as int, rects@[i as int]));
        if rects[i].x == 0 {
            assert(left_of(ms, i as int) == 0);
            at_left = true;
        }
        if rects[i].y == 0 {
            assert(top_of(ms, i as int) == 0);
            at_top = true;
        }
    }
    at_left && at_top
}

/// Whether any two members share a pixel.
fn any_overlap(Ghost(ms): Ghost<Seq<MemberGeometry>>, rects: &Vec<MemberRect>) -> (shared: bool)
    requires
        rects@.len() == ms.len(),
        all_sized(ms),
        group_width(ms) <= u16::MAX,
        group_height(ms) <= u16::MAX,
        forall|i: int| 0 <= i < rects@.len() ==> placed_at(ms, i, #[trigger] rects@[i]),
    ensures
        shared == (exists|i: int, j: int|
            0 <= i < j < ms.len() && #[trigger] members_overlap(ms, i, j)),
{
    proof {
        lemma_extents(ms, ms.len() as int);
        lemma_extent_y_bounds(ms, ms.len() as int);
    }
    for i in 0..rects.len()
        invariant
            rects@.len() == ms.len(),
            all_sized(ms),
            forall|k: int| 0 <= k < ms.len() ==> #[trigger] right_of(ms, k) <= u16::MAX,
            forall|k: int| 0 <= k < ms.len() ==> #[trigger] bottom_of(ms, k) <= u16::MAX,
            forall|k: int| 0 <= k < rects@.len() ==> placed_at(ms, k, #[trigger] rects@[k]),
            forall|a: int, b: int|
                0 <= a < i && a < b < ms.len() ==> !#[trigger] members_overlap(ms, a, b),
    {
        for j in i + 1..rects.len()
            invariant
                i < rects@.len(),
                rects@.len() == ms.len(),
                all_sized(ms),
                forall|k: int| 0 <= k < ms.len() ==> #[trigger] right_of(ms, k) <= u16::MAX,
                forall|k: int| 0 <= k < ms.len() ==> #[trigger] bottom_of(ms, k) <= u16::MAX,
                forall|k: int| 0 <= k < rects@.len() ==> placed_at(ms, k, #[trigger] rects@[k]),
                forall|a: int, b: int|
                    0 <= a < i && a < b < ms.len() ==> !#[trigger] members_overlap(ms, a, b),
                forall|b: int| i < b < j ==> !#[trigger] members_overlap(ms, i as int, b),
        {
            proof {
                lemma_overlap_by_edges(ms, i as int, j as int);
                assert(placed_at(ms, i as int, rects@[i as int]));
                assert(placed_at(ms, j as int, rects@[j as int]));
                assert(right_of(ms, i as int) <= u16::MAX);
                assert(right_of(ms, j as int) <= u16::MAX);
                assert(bottom_of(ms, i as int) <= u16::MAX);
                assert(bottom_of(ms, j as int) <= u16::MAX);
            }
            if rects[i].overlaps(rects[j]) {
                return true;
            }
        }
    }
    false
}

/// Summed member area.
fn covered_area(Ghost(ms): Ghost<Seq<MemberGeometry>>, rects: &Vec<MemberRect>) -> (area: u64)
    requires
        rects@.len() == ms.len(),
        ms.len() <= MAX_GROUP_MEMBERS,
        forall|k: int| 0 <= k < ms.len() ==> (#[trigger] ms[k]).size.width <= u16::MAX,
        forall|k: int| 0 <= k < ms.len() ==> (#[trigger] ms[k]).size.height <= u16::MAX,
        forall|i: int| 0 <= i < rects@.len() ==> placed_at(ms, i, #[trigger] rects@[i]),
    ensures
        area == area_of(ms, ms.len() as int),
{
    let mut area: u64 = 0;
    for i in 0..rects.len()
        invariant
            rects@.len() == ms.len(),
            ms.len() <= MAX_GROUP_MEMBERS,
            forall|k: int| 0 <= k < ms.len() ==> (#[trigger] ms[k]).size.width <= u16::MAX,
            forall|k: int| 0 <= k < ms.len() ==> (#[trigger] ms[k]).size.height <= u16::MAX,
            forall|k: int| 0 <= k < rects@.len() ==> placed_at(ms, k, #[trigger] rects@[k]),
            area == area_of(ms, i as int),
            area <= i * 0x1_0000_0000,
    {
        let rect = rects[i];
        assert(placed_at(ms, i as int, rect));
        assert(ms[i as int].size.width <= u16::MAX);
        assert(rect.width * rect.height <= 0xffff * 0xffff) by (nonlinear_arith)
            requires
                rect.width <= 0xffff,
                rect.height <= 0xffff,
        ;
        area = area + rect.width as u64 * rect.height as u64;
    }
    area
}

/// Validates and normalizes a rectangular group of two to four members.
///
/// If every position is omitted, members are laid out in one horizontal row in declaration order.
/// If any position is present, every position is required and the rectangles must cover exactly
/// one bounding rectangle whose origin is `(0, 0)`, without gaps or overlap.
pub fn group_layout(members: &[MemberGeometry]) -> (layout: Result<
    (MemberSize, Vec<MemberRect>),
    LayoutError,
>)
    ensures
        match layout {
            Ok((size, rects)) => {
                &&& layout_error(members@) is None
                &&& size.width == group_width(members@)
                &&& size.height == group_height(members@)
                &&& rects@.len() == members@.len()
                &&& forall|i: int|
                    0 <= i < rects@.len() ==> placed_at(members@, i, #[trigger] rects@[i])
            },
            Err(e) => layout_error(members@) == Some(e),
        },
{
    let ghost ms = members@;
    if members.len() < 2 || members.len() > MAX_GROUP_MEMBERS {
        return Err(LayoutError::MemberCount);
    }
    let mut positioned: usize = 0;
    let mut level = true;
    for i in 0..members.len()
        invariant
            ms == members@,
            ms.len() > 0,
            group_sized(ms.len()),
            forall|k: int|
                0 <= k < i ==> (#[trigger] ms[k]).size.width > 0 && ms[k].size.height > 0,
            positioned <= i,
            positioned == i <==> (forall|k: int|
                0 <= k < i ==> (#[trigger] ms[k]).position is Some),
            positioned == 0 <==> (forall|k: int|
                0 <= k < i ==> (#[trigger] ms[k]).position is None),
            level <==> (forall|k: int|
                0 <= k < i ==> (#[trigger] ms[k]).size.height == ms[0].size.height),
    {
        if members[i].size.width == 0 || members[i].size.height == 0 {
            assert(!(ms[i as int].size.width > 0 && ms[i as int].size.height > 0));
            return Err(LayoutError::EmptyMember);
        }
        let ghost before = positioned;
        if members[i].position.is_some() {
            assert(ms[i as int].position is Some);
            positioned = positioned + 1;
        } else {
            assert(ms[i as int].position is None);
        }
        if members[i].size.height != members[0].size.height {
            assert(ms[i as int].size.height != ms[0].size.height);
            level = false;
        }
    }
    if positioned != 0 && positioned != members.len() {
        return Err(LayoutError::PartialPositions);
    }
    if positioned == 0 && !level {
        return Err(LayoutError::UnequalHeights);
    }
    let rects = match place_members(members) {
        Ok(rects) => rects,
        Err(e) => {
            return Err(e);
        },
    };
    let size = match bounding_size(Ghost(ms), &rects) {
        Ok(size) => size,
        Err(e) => {
            return Err(e);
        },
    };
    if size.width > 0xffff || size.height > 0xffff {
        return Err(LayoutError::ProtocolLimit);
    }
    if !starts_at_origin(Ghost(ms), &rects) {
        return Err(LayoutError::ShiftedOrigin);
    }
    if any_overlap(Ghost(ms), &rects) {
        return Err(LayoutError::Overlap);
    }
    proof {
        lemma_extents(ms, ms.len() as int);
        lemma_extent_y_bounds(ms, ms.len() as int);
        assert forall|k: int| 0 <= k < ms.len() implies (#[trigger] ms[k]).size.width <= u16::MAX
            && ms[k].size.height <= u16::MAX by {
            lemma_row_start_nonneg(ms, k);
            assert(right_of(ms, k) <= group_width(ms));
            assert(bottom_of(ms, k) <= group_height(ms));
        }
        assert(size.width * size.height <= 0xffff * 0xffff) by (nonlinear_arith)
            requires
                size.width <= 0xffff,
                size.height <= 0xffff,
        ;
    }
    if covered_area(Ghost(ms), &rects) != size.width as u64 * size.height as u64 {
        return Err(LayoutError::Gaps);
    }
    Ok((size, rects))
}

/// A layout is refused for what is wrong with it: too few or too many members, a member without
/// pixels, positions for some members only, unequal heights in an automatic row, a size that cannot
/// be counted or that the output protocol does not allow, no member at the left or top edge, or two
/// members that share a pixel.
pub proof fn law_layouts_are_refused_for_what_is_wrong(ms: Seq<MemberGeometry>)
    ensures
        ms.len() < 2 || ms.len() > 4 <==> layout_error(ms) == Some(LayoutError::MemberCount),
        layout_error(ms) matches Some(e) ==> {
            &&& e is EmptyMember ==> exists|i: int|
                0 <= i < ms.len() && ((#[trigger] ms[i]).size.width == 0 || ms[i].size.height == 0)
            &&& e is PartialPositions ==> (exists|i: int|
                0 <= i < ms.len() && (#[trigger] ms[i]).position is Some) && (exists|i: int|
                0 <= i < ms.len() && (#[trigger] ms[i]).position is None)
            &&& e is UnequalHeights ==> (forall|i: int|
                0 <= i < ms.len() ==> (#[trigger] ms[i]).position is None) && (exists|i: int|
                0 <= i < ms.len() && (#[trigger] ms[i]).size.height != ms[0].size.height)
            &&& e is Overlap ==> exists|i: int, j: int, px: int, py: int|
                0 <= i < j < ms.len() && #[trigger] member_has(ms, i, px, py)
                    && #[trigger] member_has(ms, j, px, py)
            &&& e is ShiftedOrigin ==> (forall|i: int|
                0 <= i < ms.len() ==> #[trigger] left_of(ms, i) != 0) || (forall|i: int|
                0 <= i < ms.len() ==> #[trigger] top_of(ms, i) != 0)
            &&& e is ProtocolLimit ==> exists|i: int|
                0 <= i < ms.len() && (left_of(ms, i) + (#[trigger] ms[i]).size.width > 0xffff
                    || top_of(ms, i) + ms[i].size.height > 0xffff)
        },
{
    if layout_error(ms) == Some(LayoutError::Overlap) {
        let (i, j) = choose|i: int, j: int|
            0 <= i < j < ms.len() && #[trigger] members_overlap(ms, i, j);
        let (px, py) = choose|px: int, py: int| #[trigger]
            member_has(ms, i, px, py) && #[trigger] member_has(ms, j, px, py);
        assert(member_has(ms, i, px, py) && member_has(ms, j, px, py));
    }
    if layout_error(ms) == Some(LayoutError::ProtocolLimit) {
        lemma_extents_attained(ms, ms.len() as int);
    }
}

proof fn lemma_extents_attained(ms: Seq<MemberGeometry>, n: int)
    requires
        0 <= n <= ms.len(),
    ensures
        extent_x(ms, n) == 0 || exists|i: int|
            0 <= i < n && left_of(ms, i) + (#[trigger] ms[i]).size.width == extent_x(ms, n),
        extent_y(ms, n) == 0 || exists|i: int|
            0 <= i < n && top_of(ms, i) + (#[trigger] ms[i]).size.height == extent_y(ms, n),
    decreases n,
{
    if n > 0 {
        lemma_extents_attained(ms, n - 1);
        assert(ms[n - 1] == ms[n - 1]);
    }
}

/// A member covers the pixels from its left and top edge on, as many as it is wide and high. Its
/// edges are its position or, without one, those of its place in the row.
pub proof fn law_members_cover_their_rectangle(ms: Seq<MemberGeometry>, i: int, px: int, py: int)
    requires
        0 <= i < ms.len(),
    ensures
        ms[i].position matches Some(p) ==> (member_has(ms, i, px, py) <==> p.0 <= px < p.0
            + ms[i].size.width && p.1 <= py < p.1 + ms[i].size.height),
        ms[i].position is None ==> (member_has(ms, i, px, py) <==> row_start(ms, i) <= px
            < row_start(ms, i) + ms[i].size.width && 0 <= py < ms[i].size.height),
        row_start(ms, 0) == 0,
        row_start(ms, i + 1) == row_start(ms, i) + ms[i].size.width,
{
}

/// The bounding rectangle reaches exactly as far right and down as the farthest member.
pub proof fn law_bounds_reach_the_farthest_member(ms: Seq<MemberGeometry>, i: int)
    requires
        0 <= i < ms.len(),
    ensures
        left_of(ms, i) + ms[i].size.width <= group_width(ms),
        top_of(ms, i) + ms[i].size.height <= group_height(ms),
        group_width(ms) == 0 || exists|k: int|
            0 <= k < ms.len() && left_of(ms, k) + (#[trigger] ms[k]).size.width == group_width(ms),
        group_height(ms) == 0 || exists|k: int|
            0 <= k < ms.len() && top_of(ms, k) + (#[trigger] ms[k]).size.height == group_height(ms),
{
    lemma_extents(ms, ms.len() as int);
    lemma_extents_attained(ms, ms.len() as int);
    assert(right_of(ms, i) <= group_width(ms));
    assert(bottom_of(ms, i) <= group_height(ms));
}

/// What is wrong with a layout is found: a member without pixels, positions for some members only,
/// unequal heights in an automatic row, an empty left or top edge, and a pixel that two members
/// share.
pub proof fn law_faulty_layouts_are_refused(
    ms: Seq<MemberGeometry>,
    i: int,
    j: int,
    px: int,
    py: int,
)
    requires
        2 <= ms.len() <= 4,
        0 <= i < ms.len(),
        0 <= j < ms.len(),
    ensures
        ms[i].size.width == 0 || ms[i].size.height == 0 ==> layout_error(ms) == Some(
            LayoutError::EmptyMember,
        ),
        (forall|k: int|
            0 <= k < ms.len() ==> (#[trigger] ms[k]).size.width > 0 && ms[k].size.height > 0)
            && ms[i].position is Some && ms[j].position is None ==> layout_error(ms) == Some(
            LayoutError::PartialPositions,
        ),
        (forall|k: int|
            0 <= k < ms.len() ==> (#[trigger] ms[k]).size.width > 0 && ms[k].size.height > 0
                && ms[k].position is None) && ms[i].size.height != ms[j].size.height
            ==> layout_error(ms) == Some(LayoutError::UnequalHeights),
        i != j && member_has(ms, i, px, py) && member_has(ms, j, px, py) ==> layout_error(ms)
            is Some,
        (forall|k: int| 0 <= k < ms.len() ==> #[trigger] left_of(ms, k) != 0) ==> layout_error(ms)
            is Some,
        (forall|k: int| 0 <= k < ms.len() ==> #[trigger] top_of(ms, k) != 0) ==> layout_error(ms)
            is Some,
        left_of(ms, i) + ms[i].size.width > 0xffff || top_of(ms, i) + ms[i].size.height > 0xffff
            ==> layout_error(ms) is Some,
{
    assert(ms[i] == ms[i] && ms[j] == ms[j]);
    if ms[i].size.width == 0 || ms[i].size.height == 0 {
        assert(!all_sized(ms));
    }
    if ms[i].position is Some && ms[j].position is None {
        assert(!all_positioned(ms) && !none_positioned(ms));
    }
    if ms[i].size.height != ms[j].size.height {
        assert(!equal_heights(ms));
    }
    if i != j && member_has(ms, i, px, py) && member_has(ms, j, px, py) {
        if i < j {
            assert(members_overlap(ms, i, j));
        } else {
            assert(members_overlap(ms, j, i));
        }
    }
    lemma_extents(ms, ms.len() as int);
    assert(right_of(ms, i) <= group_width(ms));
    assert(bottom_of(ms, i) <= group_height(ms));
}

/// An edge that cannot be counted is taken as the last number that can.
pub proof fn law_edges_are_clamped(edge: int)
    ensures
        clamped(edge) <= u32::MAX,
        edge <= u32::MAX ==> clamped(edge) == edge,
        edge > u32::MAX ==> clamped(edge) == u32::MAX,
{
}

} // verus!
