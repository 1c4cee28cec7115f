//! What an accepted group layout amounts to: an exact tiling of one rectangle.

use vstd::prelude::*;

use crate::layout;
use crate::layout::MemberGeometry;

verus! {

/// The pixels of a `w` by `h` rectangle whose top left pixel is `(x, y)`.
spec fn block(x: int, y: int, w: int, h: int) -> Set<(int, int)> {
    Set::new(|p: (int, int)| x <= p.0 < x + w && y <= p.1 < y + h)
}

proof fn lemma_line_len(x: int, y: int, w: int)
    requires
        0 <= w,
    ensures
        block(x, y, w, 1).finite(),
        block(x, y, w, 1).len() == w,
    decreases w,
{
    if w == 0 {
        assert(block(x, y, 0, 1) =~= Set::empty());
    } else {
        lemma_line_len(x, y, w - 1);
        assert(block(x, y, w, 1) =~= block(x, y, w - 1, 1).insert((x + w - 1, y)));
    }
}

proof fn lemma_block_len(x: int, y: int, w: int, h: int)
    requires
        0 <= w,
        0 <= h,
    ensures
        block(x, y, w, h).finite(),
        block(x, y, w, h).len() == w * h,
    decreases h,
{
    if h == 0 {
        assert(block(x, y, w, 0) =~= Set::empty());
    } else {
        lemma_block_len(x, y, w, h - 1);
        lemma_line_len(x, y + h - 1, w);
        let rest = block(x, y, w, h - 1);
        let line = block(x, y + h - 1, w, 1);
        assert(rest.disjoint(line));
        assert(block(x, y, w, h) =~= rest + line);
        vstd::set_lib::lemma_set_disjoint_lens(rest, line);
        assert(w * h == w * (h - 1) + w) by (nonlinear_arith);
    }
}

/// The pixels of member `i`.
spec fn member_pixels(ms: Seq<MemberGeometry>, i: int) -> Set<(int, int)> {
    block(layout::left_of(ms, i), layout::top_of(ms, i), ms[i].size.width as int, ms[i].size.height as int)
}

/// The pixels of the first `n` members.
spec fn covered_pixels(ms: Seq<MemberGeometry>, n: int) -> Set<(int, int)> {
    Set::new(|p: (int, int)| exists|i: int| 0 <= i < n && #[trigger] layout::member_has(ms, i, p.0, p.1))
}

proof fn lemma_covered_len(ms: Seq<MemberGeometry>, n: int)
    requires
        0 <= n <= ms.len(),
        forall|i: int, j: int|
            0 <= i < j < ms.len() ==> !#[trigger] layout::members_overlap(ms, i, j),
    ensures
        covered_pixels(ms, n).finite(),
        covered_pixels(ms, n).len() == layout::area_of(ms, n),
    decreases n,
{
    if n == 0 {
        assert(covered_pixels(ms, 0) =~= Set::empty());
    } else {
        lemma_covered_len(ms, n - 1);
        let rest = covered_pixels(ms, n - 1);
        let last = member_pixels(ms, n - 1);
        lemma_block_len(
            layout::left_of(ms, n - 1),
            layout::top_of(ms, n - 1),
            ms[n - 1].size.width as int,
            ms[n - 1].size.height as int,
        );
        assert forall|p: (int, int)| rest.contains(p) implies !last.contains(p) by {
            let i = choose|i: int| 0 <= i < n - 1 && #[trigger] layout::member_has(ms, i, p.0, p.1);
            assert(!layout::members_overlap(ms, i, n - 1));
            assert(layout::member_has(ms, i, p.0, p.1));
            assert(!layout::member_has(ms, n - 1, p.0, p.1));
        }
        assert(rest.disjoint(last));
        assert forall|p: (int, int)| covered_pixels(ms, n).contains(p) implies #[trigger] (rest
            + last).contains(p) by {
            let i = choose|i: int| 0 <= i < n && #[trigger] layout::member_has(ms, i, p.0, p.1);
            if i < n - 1 {
                assert(rest.contains(p));
            }
        }
        assert forall|p: (int, int)| #[trigger] (rest + last).contains(p) implies covered_pixels(
            ms,
            n,
        ).contains(p) by {
            if rest.contains(p) {
                let i = choose|i: int| 0 <= i < n - 1 && #[trigger] layout::member_has(ms, i, p.0, p.1);
                assert(0 <= i < n && layout::member_has(ms, i, p.0, p.1));
            } else {
                assert(layout::member_has(ms, n - 1, p.0, p.1));
            }
        }
        assert(covered_pixels(ms, n) =~= rest + last);
        vstd::set_lib::lemma_set_disjoint_lens(rest, last);
    }
}

/// A member's pixels lie within the bounding rectangle.
pub proof fn lemma_members_inside(ms: Seq<MemberGeometry>, i: int, px: int, py: int)
    requires
        0 <= i < ms.len(),
        layout::member_has(ms, i, px, py),
    ensures
        0 <= px < layout::group_width(ms),
        0 <= py < layout::group_height(ms),
{
    layout::lemma_extents(ms, ms.len() as int);
    layout::lemma_extent_y_bounds(ms, ms.len() as int);
    layout::lemma_row_start_nonneg(ms, i);
    assert(layout::right_of(ms, i) <= layout::group_width(ms));
    assert(layout::bottom_of(ms, i) <= layout::group_height(ms));
}

/// Every pixel of the bounding rectangle belongs to exactly one member.
pub open spec fn tiles_exactly(ms: Seq<MemberGeometry>) -> bool {
    forall|px: int, py: int|
        0 <= px < layout::group_width(ms) && 0 <= py < layout::group_height(ms)
            ==> #[trigger] covered_once(ms, px, py)
}

/// Whether exactly one member has the pixel.
pub open spec fn covered_once(ms: Seq<MemberGeometry>, px: int, py: int) -> bool {
    &&& exists|i: int| 0 <= i < ms.len() && #[trigger] layout::member_has(ms, i, px, py)
    &&& forall|i: int, j: int|
        0 <= i < ms.len() && 0 <= j < ms.len() && #[trigger] layout::member_has(ms, i, px, py)
            && #[trigger] layout::member_has(ms, j, px, py) ==> i == j
}

/// Members that neither overlap nor leave area uncovered tile their bounding rectangle exactly.
pub proof fn law_no_overlap_and_full_area_is_exact_tiling(ms: Seq<MemberGeometry>)
    requires
        layout::all_sized(ms),
    ensures
        ((forall|i: int, j: int|
            0 <= i < j < ms.len() ==> !#[trigger] layout::members_overlap(ms, i, j)) && layout::area_of(
            ms,
            ms.len() as int,
        ) == layout::group_width(ms) * layout::group_height(ms)) <==> tiles_exactly(ms),
{
    let n = ms.len() as int;
    let whole = block(0, 0, layout::group_width(ms), layout::group_height(ms));
    layout::lemma_extents(ms, n);
    lemma_block_len(0, 0, layout::group_width(ms), layout::group_height(ms));
    let covered = covered_pixels(ms, n);
    assert forall|p: (int, int)| covered.contains(p) implies whole.contains(p) by {
        let i = choose|i: int| 0 <= i < n && #[trigger] layout::member_has(ms, i, p.0, p.1);
        lemma_members_inside(ms, i, p.0, p.1);
    }
    assert(covered.subset_of(whole));
    if (forall|i: int, j: int| 0 <= i < j < ms.len() ==> !#[trigger] layout::members_overlap(ms, i, j))
        && layout::area_of(ms, n) == layout::group_width(ms) * layout::group_height(ms) {
        lemma_covered_len(ms, n);
        vstd::set_lib::lemma_subset_equality(covered, whole);
        assert forall|px: int, py: int|
            0 <= px < layout::group_width(ms) && 0 <= py < layout::group_height(
                ms,
            ) implies #[trigger] covered_once(ms, px, py) by {
            assert(whole.contains((px, py)));
            assert(covered.contains((px, py)));
            assert forall|i: int, j: int|
                0 <= i < ms.len() && 0 <= j < ms.len() && #[trigger] layout::member_has(ms, i, px, py)
                    && #[trigger] layout::member_has(ms, j, px, py) implies i == j by {
                if i < j {
                    assert(layout::members_overlap(ms, i, j));
                } else if j < i {
                    assert(layout::members_overlap(ms, j, i));
                }
            }
        }
    }
    if tiles_exactly(ms) {
        assert forall|i: int, j: int| 0 <= i < j < ms.len() implies !#[trigger] layout::members_overlap(
            ms,
            i,
            j,
        ) by {
            if layout::members_overlap(ms, i, j) {
                let (px, py) = choose|px: int, py: int| #[trigger]
                    layout::member_has(ms, i, px, py) && #[trigger] layout::member_has(ms, j, px, py);
                lemma_members_inside(ms, i, px, py);
                assert(covered_once(ms, px, py));
            }
        }
        lemma_covered_len(ms, n);
        assert forall|p: (int, int)| whole.contains(p) implies covered.contains(p) by {
            assert(covered_once(ms, p.0, p.1));
        }
        assert(covered =~= whole);
    }
}

/// An accepted layout tiles its bounding rectangle exactly.
pub proof fn law_accepted_layout_is_exact_tiling(ms: Seq<MemberGeometry>)
    requires
        layout::layout_error(ms) is None,
    ensures
        tiles_exactly(ms),
{
    law_no_overlap_and_full_area_is_exact_tiling(ms);
}

/// Every exact tiling of a rectangle at the origin by two to four explicitly positioned members is
/// accepted, as long as the rectangle fits the output protocol.
pub proof fn law_exact_tiling_is_accepted(ms: Seq<MemberGeometry>)
    requires
        layout::group_sized(ms.len()),
        layout::all_sized(ms),
        layout::all_positioned(ms),
        layout::group_width(ms) <= u16::MAX,
        layout::group_height(ms) <= u16::MAX,
        tiles_exactly(ms),
    ensures
        layout::layout_error(ms) is None,
{
    law_no_overlap_and_full_area_is_exact_tiling(ms);
    layout::lemma_extents(ms, ms.len() as int);
    layout::lemma_extent_y_bounds(ms, ms.len() as int);
    assert(ms[0].position is Some);
    assert(layout::right_of(ms, 0) <= layout::group_width(ms));
    assert(layout::bottom_of(ms, 0) <= layout::group_height(ms));
    assert(covered_once(ms, 0, 0));
    let i = choose|i: int| 0 <= i < ms.len() && #[trigger] layout::member_has(ms, i, 0, 0);
    assert(ms[i].position is Some);
    assert(layout::left_of(ms, i) == 0);
    assert(layout::top_of(ms, i) == 0);
}

/// Where row member `i` starts and ends relative to the members after it.
proof fn lemma_row_ordered(ms: Seq<MemberGeometry>, i: int, j: int)
    requires
        0 <= i <= j,
    ensures
        layout::row_start(ms, i) <= layout::row_start(ms, j),
    decreases j,
{
    if i < j {
        lemma_row_ordered(ms, i, j - 1);
    }
}

proof fn lemma_row_extent(ms: Seq<MemberGeometry>, n: int)
    requires
        0 <= n <= ms.len(),
        layout::all_sized(ms),
        layout::equal_heights(ms),
        forall|i: int|
            0 <= i < ms.len() ==> #[trigger] layout::left_of(ms, i) == layout::row_start(ms, i),
        forall|i: int| 0 <= i < ms.len() ==> #[trigger] layout::top_of(ms, i) == 0,
    ensures
        layout::extent_x(ms, n) == layout::row_start(ms, n),
        n > 0 ==> layout::extent_y(ms, n) == ms[0].size.height,
        layout::area_of(ms, n) == layout::row_start(ms, n) * ms[0].size.height,
    decreases n,
{
    if n > 0 {
        lemma_row_extent(ms, n - 1);
        assert(layout::extent_y(ms, 0) == 0);
        let m = ms[n - 1];
        assert(m.size.height == ms[0].size.height);
        assert(layout::left_of(ms, n - 1) == layout::row_start(ms, n - 1));
        assert(layout::top_of(ms, n - 1) == 0);
        let start = layout::row_start(ms, n - 1);
        let w = m.size.width as int;
        let h = ms[0].size.height as int;
        assert((start + w) * h == start * h + w * h) by (nonlinear_arith);
    } else {
        assert(0 * ms[0].size.height == 0) by (nonlinear_arith);
    }
}

/// Two to four members of one height in a row, positioned or not, always form a group of that
/// height and their summed width.
pub proof fn law_rows_are_accepted(ms: Seq<MemberGeometry>)
    requires
        layout::group_sized(ms.len()),
        layout::all_sized(ms),
        layout::equal_heights(ms),
        layout::none_positioned(ms) || (layout::all_positioned(ms) && forall|i: int|
            0 <= i < ms.len() ==> #[trigger] layout::left_of(ms, i) == layout::row_start(ms, i)
                && layout::top_of(ms, i) == 0),
        layout::row_start(ms, ms.len() as int) <= u16::MAX,
        ms[0].size.height <= u16::MAX,
    ensures
        layout::layout_error(ms) is None,
        layout::group_width(ms) == layout::row_start(ms, ms.len() as int),
        layout::group_height(ms) == ms[0].size.height,
        forall|i: int|
            0 <= i < ms.len() ==> #[trigger] layout::left_of(ms, i) == layout::row_start(ms, i),
{
    assert forall|i: int| 0 <= i < ms.len() implies #[trigger] layout::left_of(ms, i)
        == layout::row_start(ms, i) by {
        if layout::none_positioned(ms) {
            assert(ms[i].position is None);
        }
    }
    assert forall|i: int| 0 <= i < ms.len() implies #[trigger] layout::top_of(ms, i) == 0 by {
        if layout::none_positioned(ms) {
            assert(ms[i].position is None);
        } else {
            assert(layout::left_of(ms, i) == layout::row_start(ms, i));
        }
    }
    lemma_row_extent(ms, ms.len() as int);
    assert(layout::left_of(ms, 0) == 0);
    assert(layout::top_of(ms, 0) == 0);
    assert forall|i: int, j: int| 0 <= i < j < ms.len() implies !#[trigger] layout::members_overlap(
        ms,
        i,
        j,
    ) by {
        layout::lemma_overlap_by_edges(ms, i, j);
        lemma_row_ordered(ms, i + 1, j);
        assert(layout::left_of(ms, i) == layout::row_start(ms, i));
        assert(layout::left_of(ms, j) == layout::row_start(ms, j));
    }
}

/// Omitting every position means the same as positioning the members one after another in a row.
pub proof fn law_automatic_row_is_the_explicit_row(auto: Seq<MemberGeometry>, row: Seq<MemberGeometry>)
    requires
        layout::none_positioned(auto),
        layout::equal_heights(auto),
        layout::all_positioned(row),
        auto.len() == row.len(),
        forall|i: int| 0 <= i < auto.len() ==> (#[trigger] row[i]).size == auto[i].size,
        forall|i: int|
            0 <= i < auto.len() ==> #[trigger] layout::left_of(row, i) == layout::row_start(auto, i)
                && layout::top_of(row, i) == 0,
    ensures
        layout::layout_error(auto) is None ==> layout::layout_error(row) is None,
        forall|i: int|
            0 <= i < auto.len() ==> #[trigger] layout::left_of(row, i) == layout::left_of(auto, i)
                && layout::top_of(row, i) == layout::top_of(auto, i),
        layout::layout_error(auto) is None ==> layout::group_width(row) == layout::group_width(auto)
            && layout::group_height(row) == layout::group_height(auto),
{
    assert forall|i: int| 0 <= i < auto.len() implies #[trigger] layout::left_of(row, i)
        == layout::left_of(auto, i) && layout::top_of(row, i) == layout::top_of(auto, i) by {
        assert(auto[i].position is None);
        assert(layout::left_of(auto, i) == layout::row_start(auto, i));
        assert(layout::top_of(auto, i) == 0);
        assert(layout::left_of(row, i) == layout::row_start(auto, i));
        assert(layout::top_of(row, i) == 0);
    }
    if layout::layout_error(auto) is None {
        lemma_same_rows(auto, row, auto.len() as int);
        assert forall|i: int| 0 <= i < auto.len() implies #[trigger] layout::left_of(auto, i)
            == layout::row_start(auto, i) by {
            assert(auto[i].position is None);
        }
        assert forall|i: int| 0 <= i < auto.len() implies #[trigger] layout::top_of(auto, i)
            == 0 by {
            assert(auto[i].position is None);
        }
        lemma_row_extent(auto, auto.len() as int);
        assert forall|i: int| 0 <= i < row.len() implies (#[trigger] row[i]).size.height
            == row[0].size.height && row[i].size.width > 0 && row[i].size.height > 0 by {
            assert(auto[i].size.height == auto[0].size.height);
            assert(row[0].size == auto[0].size);
        }
        assert forall|i: int| 0 <= i < row.len() implies #[trigger] layout::left_of(row, i)
            == layout::row_start(row, i) && layout::top_of(row, i) == 0 by {
            lemma_same_rows(auto, row, i);
            assert(layout::left_of(auto, i) == layout::row_start(auto, i));
        }
        assert(row[0].size == auto[0].size);
        law_rows_are_accepted(row);
    }
}

proof fn lemma_same_rows(a: Seq<MemberGeometry>, b: Seq<MemberGeometry>, n: int)
    requires
        0 <= n <= a.len(),
        a.len() == b.len(),
        forall|i: int| 0 <= i < a.len() ==> (#[trigger] b[i]).size == a[i].size,
    ensures
        layout::row_start(a, n) == layout::row_start(b, n),
    decreases n,
{
    if n > 0 {
        lemma_same_rows(a, b, n - 1);
        assert(b[n - 1].size == a[n - 1].size);
    }
}

/// Summed height of the first `n` members: where member `n` starts in a column.
pub open spec fn column_start(ms: Seq<MemberGeometry>, n: int) -> int
    decreases n,
{
    if n <= 0 {
        0
    } else {
        column_start(ms, n - 1) + ms[n - 1].size.height
    }
}

proof fn lemma_column_ordered(ms: Seq<MemberGeometry>, i: int, j: int)
    requires
        0 <= i <= j,
    ensures
        column_start(ms, i) <= column_start(ms, j),
    decreases j,
{
    if i < j {
        lemma_column_ordered(ms, i, j - 1);
    }
}

proof fn lemma_column_extent(ms: Seq<MemberGeometry>, n: int)
    requires
        0 <= n <= ms.len(),
        layout::all_sized(ms),
        forall|i: int| 0 <= i < ms.len() ==> (#[trigger] ms[i]).size.width == ms[0].size.width,
        forall|i: int| 0 <= i < ms.len() ==> #[trigger] layout::left_of(ms, i) == 0,
        forall|i: int|
            0 <= i < ms.len() ==> #[trigger] layout::top_of(ms, i) == column_start(ms, i),
    ensures
        layout::extent_y(ms, n) == column_start(ms, n),
        n > 0 ==> layout::extent_x(ms, n) == ms[0].size.width,
        layout::area_of(ms, n) == ms[0].size.width * column_start(ms, n),
    decreases n,
{
    if n > 0 {
        lemma_column_extent(ms, n - 1);
        assert(layout::extent_x(ms, 0) == 0);
        let m = ms[n - 1];
        assert(m.size.width == ms[0].size.width);
        assert(layout::left_of(ms, n - 1) == 0);
        assert(layout::top_of(ms, n - 1) == column_start(ms, n - 1));
        let start = column_start(ms, n - 1);
        let w = ms[0].size.width as int;
        let h = m.size.height as int;
        assert(w * (start + h) == w * start + w * h) by (nonlinear_arith);
    } else {
        assert(ms[0].size.width * 0 == 0) by (nonlinear_arith);
    }
}

/// Two to four members of one width stacked in a column always form a group of that width and
/// their summed height.
pub proof fn law_columns_are_accepted(ms: Seq<MemberGeometry>)
    requires
        layout::group_sized(ms.len()),
        layout::all_sized(ms),
        layout::all_positioned(ms),
        forall|i: int| 0 <= i < ms.len() ==> (#[trigger] ms[i]).size.width == ms[0].size.width,
        forall|i: int|
            0 <= i < ms.len() ==> #[trigger] layout::top_of(ms, i) == column_start(ms, i)
                && layout::left_of(ms, i) == 0,
        column_start(ms, ms.len() as int) <= u16::MAX,
        ms[0].size.width <= u16::MAX,
    ensures
        layout::layout_error(ms) is None,
        layout::group_width(ms) == ms[0].size.width,
        layout::group_height(ms) == column_start(ms, ms.len() as int),
{
    assert forall|i: int| 0 <= i < ms.len() implies #[trigger] layout::left_of(ms, i) == 0 by {
        assert(layout::top_of(ms, i) == column_start(ms, i));
    }
    lemma_column_extent(ms, ms.len() as int);
    assert(layout::left_of(ms, 0) == 0);
    assert(layout::top_of(ms, 0) == 0);
    assert(ms[0].position is Some);
    assert forall|i: int, j: int| 0 <= i < j < ms.len() implies !#[trigger] layout::members_overlap(
        ms,
        i,
        j,
    ) by {
        layout::lemma_overlap_by_edges(ms, i, j);
        lemma_column_ordered(ms, i + 1, j);
        assert(layout::top_of(ms, i) == column_start(ms, i));
        assert(layout::top_of(ms, j) == column_start(ms, j));
    }
}

/// Whether four members form a two by two grid with the given column widths and row heights.
pub open spec fn is_grid(
    ms: Seq<MemberGeometry>,
    left: int,
    right: int,
    top: int,
    bottom: int,
) -> bool {
    &&& ms.len() == 4
    &&& grid_cell(ms[0], 0, 0, left, top)
    &&& grid_cell(ms[1], left, 0, right, top)
    &&& grid_cell(ms[2], 0, top, left, bottom)
    &&& grid_cell(ms[3], left, top, right, bottom)
}

/// Whether a member is positioned at `(x, y)` with the given size.
pub open spec fn grid_cell(m: MemberGeometry, x: int, y: int, w: int, h: int) -> bool {
    m.position matches Some(p) && p.0 == x && p.1 == y && m.size.width == w && m.size.height == h
}

/// Every two by two grid that fits the output protocol is accepted.
pub proof fn law_grids_are_accepted(
    ms: Seq<MemberGeometry>,
    left: int,
    right: int,
    top: int,
    bottom: int,
)
    requires
        is_grid(ms, left, right, top, bottom),
        0 < left,
        0 < right,
        0 < top,
        0 < bottom,
        left + right <= u16::MAX,
        top + bottom <= u16::MAX,
    ensures
        layout::layout_error(ms) is None,
        layout::group_width(ms) == left + right,
        layout::group_height(ms) == top + bottom,
{
    reveal_with_fuel(layout::extent_x, 5);
    reveal_with_fuel(layout::extent_y, 5);
    reveal_with_fuel(layout::area_of, 5);
    assert(layout::all_sized(ms));
    assert(layout::all_positioned(ms));
    assert(!layout::none_positioned(ms)) by {
        assert(ms[0].position is Some);
    }
    assert(layout::left_of(ms, 0) == 0);
    assert(layout::top_of(ms, 0) == 0);
    assert forall|i: int, j: int| 0 <= i < j < ms.len() implies !#[trigger] layout::members_overlap(
        ms,
        i,
        j,
    ) by {
        layout::lemma_overlap_by_edges(ms, i, j);
    }
    assert(left * top + right * top + left * bottom + right * bottom == (left + right) * (top
        + bottom)) by (nonlinear_arith);
}

} // verus!
