//! The mathematical model of grid geometry.
//!
//! Coordinates are pairs `(y, x)`: `y` counts rows downward, `x` counts
//! columns rightward, and `(0, 0)` is the upper-left cell of a grid with
//! `h` rows and `w` columns. The functions here describe, as sequences of
//! `int` pairs, exactly what each traversal query of [`crate::grid::Grid`]
//! returns; the lemmas state the general laws those sequences obey.

use vstd::prelude::*;
use vstd::math::min;

verus! {

/// True when `(y, x)` names a cell of a grid with `h` rows and `w` columns.
pub open spec fn in_range(h: int, w: int, y: int, x: int) -> bool {
    0 <= y < h && 0 <= x < w
}

/// A candidate coordinate, kept only when it lies inside the grid.
pub open spec fn keep_in_range(h: int, w: int, c: (int, int)) -> Seq<(int, int)> {
    if in_range(h, w, c.0, c.1) {
        seq![c]
    } else {
        Seq::empty()
    }
}

/// The Moore neighborhood of `(y, x)`: the eight surrounding coordinates,
/// swept column by column (the column to the left from top to bottom, then
/// the middle column, then the column to the right), clipped to the grid.
pub open spec fn neighbor_seq(h: int, w: int, y: int, x: int) -> Seq<(int, int)> {
    keep_in_range(h, w, (y - 1, x - 1)) + keep_in_range(h, w, (y, x - 1)) + keep_in_range(
        h,
        w,
        (y + 1, x - 1),
    ) + keep_in_range(h, w, (y - 1, x)) + keep_in_range(h, w, (y + 1, x)) + keep_in_range(
        h,
        w,
        (y - 1, x + 1),
    ) + keep_in_range(h, w, (y, x + 1)) + keep_in_range(h, w, (y + 1, x + 1))
}

/// Diagonal ray from `(y, x)` toward the upper-left corner: origin-exclusive,
/// nearest cell first, running to the grid edge.
pub open spec fn up_left_ray(y: int, x: int) -> Seq<(int, int)> {
    Seq::new(min(y, x) as nat, |k: int| (y - 1 - k, x - 1 - k))
}

/// Diagonal ray from `(y, x)` toward the upper-right corner of a grid with
/// `w` columns: origin-exclusive, nearest cell first.
pub open spec fn up_right_ray(y: int, x: int, w: int) -> Seq<(int, int)> {
    Seq::new(min(y, w - 1 - x) as nat, |k: int| (y - 1 - k, x + 1 + k))
}

/// Diagonal ray from `(y, x)` toward the lower-left corner of a grid with
/// `h` rows: origin-exclusive, nearest cell first.
pub open spec fn down_left_ray(y: int, x: int, h: int) -> Seq<(int, int)> {
    Seq::new(min(h - 1 - y, x) as nat, |k: int| (y + 1 + k, x - 1 - k))
}

/// Diagonal ray from `(y, x)` toward the lower-right corner of a grid with
/// `h` rows and `w` columns: origin-exclusive, nearest cell first.
pub open spec fn down_right_ray(y: int, x: int, h: int, w: int) -> Seq<(int, int)> {
    Seq::new(min(h - 1 - y, w - 1 - x) as nat, |k: int| (y + 1 + k, x + 1 + k))
}

/// Straight ray from `(y, x)` upward: `(y-1, x), (y-2, x), ..., (0, x)`.
pub open spec fn up_ray(y: int, x: int) -> Seq<(int, int)> {
    Seq::new(y as nat, |k: int| (y - 1 - k, x))
}

/// Straight ray from `(y, x)` downward in a grid with `h` rows:
/// `(y+1, x), ..., (h-1, x)`.
pub open spec fn down_ray(y: int, x: int, h: int) -> Seq<(int, int)> {
    Seq::new((h - 1 - y) as nat, |k: int| (y + 1 + k, x))
}

/// Straight ray from `(y, x)` leftward: `(y, x-1), (y, x-2), ..., (y, 0)`.
pub open spec fn left_ray(y: int, x: int) -> Seq<(int, int)> {
    Seq::new(x as nat, |k: int| (y, x - 1 - k))
}

/// Straight ray from `(y, x)` rightward in a grid with `w` columns:
/// `(y, x+1), ..., (y, w-1)`.
pub open spec fn right_ray(y: int, x: int, w: int) -> Seq<(int, int)> {
    Seq::new((w - 1 - x) as nat, |k: int| (y, x + 1 + k))
}

/// The offset jumps from `(y, x)` with magnitudes `a` and `b`: the eight
/// sign and axis combinations in a fixed order, each kept only when it lands
/// inside the grid. No deduplication is performed, so when `a == b` a
/// coordinate may appear twice.
pub open spec fn jump_seq(h: int, w: int, y: int, x: int, a: int, b: int) -> Seq<(int, int)> {
    keep_in_range(h, w, (y + b, x + a)) + keep_in_range(h, w, (y + b, x - a)) + keep_in_range(
        h,
        w,
        (y - b, x + a),
    ) + keep_in_range(h, w, (y - b, x - a)) + keep_in_range(h, w, (y + a, x + b)) + keep_in_range(
        h,
        w,
        (y + a, x - b),
    ) + keep_in_range(h, w, (y - a, x + b)) + keep_in_range(h, w, (y - a, x - b))
}

/// Every coordinate of `s` lies inside a grid of `h` rows and `w` columns.
pub open spec fn all_in_range(h: int, w: int, s: Seq<(int, int)>) -> bool {
    forall|k: int| 0 <= k < s.len() ==> in_range(h, w, #[trigger] s[k].0, s[k].1)
}

/// Concatenation preserves lying inside the grid.
proof fn lemma_all_in_range_add(h: int, w: int, a: Seq<(int, int)>, b: Seq<(int, int)>)
    requires
        all_in_range(h, w, a),
        all_in_range(h, w, b),
    ensures
        all_in_range(h, w, a + b),
{
    assert forall|k: int| 0 <= k < (a + b).len() implies in_range(
        h,
        w,
        #[trigger] (a + b)[k].0,
        (a + b)[k].1,
    ) by {
        if k < a.len() {
            assert((a + b)[k] == a[k]);
        } else {
            assert((a + b)[k] == b[k - a.len()]);
        }
    }
}

/// Every coordinate of a Moore neighborhood lies inside the grid.
pub proof fn lemma_neighbor_seq_in_range(h: int, w: int, y: int, x: int)
    ensures
        all_in_range(h, w, neighbor_seq(h, w, y, x)),
{
    let s1 = keep_in_range(h, w, (y - 1, x - 1));
    let s2 = keep_in_range(h, w, (y, x - 1));
    let s3 = keep_in_range(h, w, (y + 1, x - 1));
    let s4 = keep_in_range(h, w, (y - 1, x));
    let s5 = keep_in_range(h, w, (y + 1, x));
    let s6 = keep_in_range(h, w, (y - 1, x + 1));
    let s7 = keep_in_range(h, w, (y, x + 1));
    let s8 = keep_in_range(h, w, (y + 1, x + 1));
    lemma_all_in_range_add(h, w, s1, s2);
    lemma_all_in_range_add(h, w, s1 + s2, s3);
    lemma_all_in_range_add(h, w, s1 + s2 + s3, s4);
    lemma_all_in_range_add(h, w, s1 + s2 + s3 + s4, s5);
    lemma_all_in_range_add(h, w, s1 + s2 + s3 + s4 + s5, s6);
    lemma_all_in_range_add(h, w, s1 + s2 + s3 + s4 + s5 + s6, s7);
    lemma_all_in_range_add(h, w, s1 + s2 + s3 + s4 + s5 + s6 + s7, s8);
}

/// No coordinate of `s` equals `c`.
pub open spec fn excludes(s: Seq<(int, int)>, c: (int, int)) -> bool {
    forall|k: int| 0 <= k < s.len() ==> #[trigger] s[k] != c
}

/// No coordinate of `s` appears twice.
pub open spec fn distinct_coords(s: Seq<(int, int)>) -> bool {
    forall|k1: int, k2: int| #![trigger s[k1], s[k2]] 0 <= k1 < k2 < s.len() ==> s[k1] != s[k2]
}

/// Law: a Moore neighborhood never holds more than eight coordinates; it
/// holds exactly eight for a cell strictly interior to the grid, exactly
/// three for a corner cell of a grid at least two by two, and none at all
/// for the sole cell of a one-by-one grid.
pub proof fn lemma_neighbor_count(h: int, w: int, y: int, x: int)
    ensures
        neighbor_seq(h, w, y, x).len() <= 8,
        1 <= y < h - 1 && 1 <= x < w - 1 ==> neighbor_seq(h, w, y, x).len() == 8,
        h >= 2 && w >= 2 && (y == 0 || y == h - 1) && (x == 0 || x == w - 1) ==> neighbor_seq(
            h,
            w,
            y,
            x,
        ).len() == 3,
        h == 1 && w == 1 && y == 0 && x == 0 ==> neighbor_seq(h, w, y, x).len() == 0,
{
}

/// Law: none of the four diagonal and four straight rays from the cell
/// `(y, x)` includes the origin cell itself, and none repeats a coordinate.
pub proof fn lemma_rays_origin_free_and_distinct(h: int, w: int, y: int, x: int)
    ensures
        excludes(up_left_ray(y, x), (y, x)),
        excludes(up_right_ray(y, x, w), (y, x)),
        excludes(down_left_ray(y, x, h), (y, x)),
        excludes(down_right_ray(y, x, h, w), (y, x)),
        excludes(up_ray(y, x), (y, x)),
        excludes(down_ray(y, x, h), (y, x)),
        excludes(left_ray(y, x), (y, x)),
        excludes(right_ray(y, x, w), (y, x)),
        distinct_coords(up_left_ray(y, x)),
        distinct_coords(up_right_ray(y, x, w)),
        distinct_coords(down_left_ray(y, x, h)),
        distinct_coords(down_right_ray(y, x, h, w)),
        distinct_coords(up_ray(y, x)),
        distinct_coords(down_ray(y, x, h)),
        distinct_coords(left_ray(y, x)),
        distinct_coords(right_ray(y, x, w)),
{
}

/// Law: the four straight rays from a cell cover every other cell of its
/// row and column exactly once, so their lengths add up to
/// `(h - 1) + (w - 1)`.
pub proof fn lemma_straight_ray_length_sum(h: int, w: int, y: int, x: int)
    requires
        in_range(h, w, y, x),
    ensures
        up_ray(y, x).len() + down_ray(y, x, h).len() + left_ray(y, x).len() + right_ray(
            y,
            x,
            w,
        ).len() == (h - 1) + (w - 1),
{
}

/// Law: an offset jump never reaches more than eight coordinates, and
/// reaches exactly eight from a cell far enough from every edge for both
/// magnitudes on both axes.
pub proof fn lemma_jump_count(h: int, w: int, y: int, x: int, a: int, b: int)
    ensures
        jump_seq(h, w, y, x, a, b).len() <= 8,
        0 <= a && 0 <= b && a <= y && y + a < h && b <= y && y + b < h && a <= x && x + a < w && b
            <= x && x + b < w ==> jump_seq(h, w, y, x, a, b).len() == 8,
{
}

/// Every coordinate of each of the eight rays from a cell lies inside the
/// grid.
pub proof fn lemma_rays_in_range(h: int, w: int, y: int, x: int)
    requires
        in_range(h, w, y, x),
    ensures
        all_in_range(h, w, up_left_ray(y, x)),
        all_in_range(h, w, up_right_ray(y, x, w)),
        all_in_range(h, w, down_left_ray(y, x, h)),
        all_in_range(h, w, down_right_ray(y, x, h, w)),
        all_in_range(h, w, up_ray(y, x)),
        all_in_range(h, w, down_ray(y, x, h)),
        all_in_range(h, w, left_ray(y, x)),
        all_in_range(h, w, right_ray(y, x, w)),
{
}

} // verus!
