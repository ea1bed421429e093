//! The grid abstraction: storage primitives supplied by an implementor, and
//! the traversal queries derived from them.

use vstd::prelude::*;
use crate::geometry::{
    all_in_range, down_left_ray, down_ray, down_right_ray, in_range, jump_seq, keep_in_range,
    left_ray, lemma_neighbor_seq_in_range, lemma_rays_in_range, neighbor_seq, right_ray,
    up_left_ray, up_ray, up_right_ray,
};

verus! {

/// The mathematical contents of a backing store: each row of `Vec`s viewed
/// as a sequence, so that a whole grid is a sequence of sequences of cells.
pub open spec fn rows_view<F>(rows: Seq<Vec<F>>) -> Seq<Seq<F>> {
    rows.map_values(|r: Vec<F>| r@)
}

/// The number of rows of a grid.
pub open spec fn height_of<F>(g: Seq<Seq<F>>) -> int {
    g.len() as int
}

/// The number of columns of a grid, read from its first row.
pub open spec fn width_of<F>(g: Seq<Seq<F>>) -> int {
    g[0].len() as int
}

/// A well-formed grid: at least one row, and every row of the same length.
pub open spec fn grid_wf<F>(g: Seq<Seq<F>>) -> bool {
    g.len() > 0 && forall|i: int| 0 <= i < g.len() ==> #[trigger] g[i].len() == g[0].len()
}

/// A vector of machine-word coordinates, viewed as mathematical pairs.
pub open spec fn coords_view(s: Seq<(usize, usize)>) -> Seq<(int, int)> {
    s.map_values(|c: (usize, usize)| (c.0 as int, c.1 as int))
}

/// A vector of borrowed cells, viewed as the sequence of their values.
pub open spec fn refs_view<F>(s: Seq<&F>) -> Seq<F> {
    s.map_values(|f: &F| *f)
}

/// The cell values of `g` at each coordinate of `cs`, in order.
pub open spec fn fields_at<F>(g: Seq<Seq<F>>, cs: Seq<(int, int)>) -> Seq<F> {
    cs.map_values(|c: (int, int)| g[c.0][c.1])
}

/// A row of `n` copies of the default cell `d`.
pub open spec fn default_row<F>(n: int, d: F) -> Seq<F> {
    Seq::new(n as nat, |i: int| d)
}

/// Every row of `g` left-padded with `dx` copies of the default cell `d`.
pub open spec fn padded_rows<F>(g: Seq<Seq<F>>, dx: int, d: F) -> Seq<Seq<F>> {
    g.map_values(|row: Seq<F>| default_row(dx, d) + row)
}

/// The grid `g` grown by `dy` rows and `dx` columns: every row is
/// left-padded with `dx` default cells, and `dy` default-filled rows of the
/// new width are prepended when `at_start` holds, appended otherwise.
pub open spec fn grown<F>(g: Seq<Seq<F>>, dy: int, dx: int, at_start: bool, d: F) -> Seq<Seq<F>> {
    let pads = Seq::new(dy as nat, |i: int| default_row(width_of(g) + dx, d));
    if at_start {
        pads + padded_rows(g, dx, d)
    } else {
        padded_rows(g, dx, d) + pads
    }
}

/// The grid `g` cropped by `dy` rows and `dx` columns: the first `dy` rows
/// and `dx` columns are dropped when `at_start` holds, the last ones
/// otherwise.
pub open spec fn cropped<F>(g: Seq<Seq<F>>, dy: int, dx: int, at_start: bool) -> Seq<Seq<F>> {
    if at_start {
        Seq::new((g.len() - dy) as nat, |i: int| g[i + dy].subrange(dx, g[i + dy].len() as int))
    } else {
        Seq::new((g.len() - dy) as nat, |i: int| g[i].subrange(0, width_of(g) - dx))
    }
}

/// Law: a grown grid keeps every old cell, moved over by the pad widths,
/// and holds the default cell everywhere else: every row has the new width,
/// the old content sits at `(i + dy, j + dx)` when the pad rows come first
/// and at `(i, j + dx)` when they come last, and the pad rows and pad
/// columns are filled with `d`.
pub proof fn lemma_grown_layout<F>(g: Seq<Seq<F>>, dy: int, dx: int, at_start: bool, d: F)
    requires
        grid_wf(g),
        dy >= 0,
        dx >= 0,
    ensures
        grown(g, dy, dx, at_start, d).len() == g.len() + dy,
        forall|i: int| 0 <= i < g.len() + dy ==> #[trigger] grown(g, dy, dx, at_start, d)[i].len()
            == width_of(g) + dx,
        at_start ==> forall|i: int, j: int|
            0 <= i < g.len() && 0 <= j < width_of(g) ==> #[trigger] grown(g, dy, dx, at_start, d)[i
                + dy][j + dx] == g[i][j],
        !at_start ==> forall|i: int, j: int|
            0 <= i < g.len() && 0 <= j < width_of(g) ==> #[trigger] grown(g, dy, dx, at_start, d)[i][j
                + dx] == g[i][j],
        at_start ==> forall|i: int, j: int|
            0 <= i < g.len() + dy && 0 <= j < width_of(g) + dx && (i < dy || j < dx)
                ==> #[trigger] grown(g, dy, dx, at_start, d)[i][j] == d,
        !at_start ==> forall|i: int, j: int|
            0 <= i < g.len() + dy && 0 <= j < width_of(g) + dx && (i >= g.len() || j < dx)
                ==> #[trigger] grown(g, dy, dx, at_start, d)[i][j] == d,
{
    assert forall|i: int| 0 <= i < g.len() + dy implies #[trigger] grown(
        g,
        dy,
        dx,
        at_start,
        d,
    )[i].len() == width_of(g) + dx by {
        if at_start {
            if i >= dy {
                assert(grown(g, dy, dx, at_start, d)[i] == default_row(dx, d) + g[i - dy]);
                assert(g[i - dy].len() == g[0].len());
            }
        } else {
            if i < g.len() {
                assert(grown(g, dy, dx, at_start, d)[i] == default_row(dx, d) + g[i]);
                assert(g[i].len() == g[0].len());
            }
        }
    }
}

/// Law: growing a grid by `dy` rows and `dx` columns at the start and then
/// cropping the same magnitudes at the start restores the original grid.
pub proof fn lemma_shift_round_trip_start<F>(g: Seq<Seq<F>>, dy: int, dx: int, d: F)
    requires
        grid_wf(g),
        dy >= 0,
        dx >= 0,
    ensures
        cropped(grown(g, dy, dx, true, d), dy, dx, true) == g,
{
    let gr = grown(g, dy, dx, true, d);
    assert forall|i: int| 0 <= i < g.len() implies cropped(gr, dy, dx, true)[i] == g[i] by {
        assert(gr[i + dy] == default_row(dx, d) + g[i]);
        assert((default_row(dx, d) + g[i]).subrange(dx, (default_row(dx, d) + g[i]).len() as int)
            =~= g[i]);
    }
    assert(cropped(gr, dy, dx, true) =~= g);
}

/// Law: growing a grid by `dy` rows at the end and then cropping `dy` rows
/// at the end restores the original grid. Unlike the start-side round trip
/// this holds for the row axis alone: columns are always padded at the
/// start, so an end-side crop of a column-grown grid would keep the pads
/// and drop content instead.
pub proof fn lemma_shift_round_trip_end<F>(g: Seq<Seq<F>>, dy: int, d: F)
    requires
        grid_wf(g),
        dy >= 0,
    ensures
        cropped(grown(g, dy, 0, false, d), dy, 0, false) == g,
{
    let gr = grown(g, dy, 0, false, d);
    assert forall|i: int| 0 <= i < g.len() implies cropped(gr, dy, 0, false)[i] == g[i] by {
        assert(gr[i] == default_row(0, d) + g[i]);
        assert(gr[0] == default_row(0, d) + g[0]);
        assert(gr[i].subrange(0, width_of(gr) - 0) =~= g[i]);
    }
    assert(cropped(gr, dy, 0, false) =~= g);
}

/// Extending a subrange by one element appends the element at the cut.
pub proof fn lemma_subrange_succ<A>()
    ensures
        forall|s: Seq<A>, a: int, b: int|
            0 <= a <= b < s.len() ==> #[trigger] s.subrange(a, b + 1) == s.subrange(a, b).push(
                s[b],
            ),
{
    assert forall|s: Seq<A>, a: int, b: int| 0 <= a <= b < s.len() implies #[trigger] s.subrange(
        a,
        b + 1,
    ) == s.subrange(a, b).push(s[b]) by {
        assert(s.subrange(a, b + 1) =~= s.subrange(a, b).push(s[b]));
    }
}

/// Viewing machine-word coordinates commutes with appending one.
pub proof fn lemma_coords_view_push()
    ensures
        forall|s: Seq<(usize, usize)>, c: (usize, usize)| #[trigger] coords_view(s.push(c))
            == coords_view(s).push((c.0 as int, c.1 as int)),
{
    assert forall|s: Seq<(usize, usize)>, c: (usize, usize)| #[trigger] coords_view(s.push(c))
        == coords_view(s).push((c.0 as int, c.1 as int)) by {
        assert(coords_view(s.push(c)) =~= coords_view(s).push((c.0 as int, c.1 as int)));
    }
}

/// Taking one more element of a sequence appends the element at the cut.
pub proof fn lemma_take_succ<A>()
    ensures
        forall|s: Seq<A>, i: int| 0 <= i < s.len() ==> #[trigger] s.take(i + 1) == s.take(i).push(
            s[i],
        ),
{
    assert forall|s: Seq<A>, i: int| 0 <= i < s.len() implies #[trigger] s.take(i + 1) == s.take(
        i,
    ).push(s[i]) by {
        assert(s.take(i + 1) =~= s.take(i).push(s[i]));
    }
}

/// Viewing the backing rows commutes with appending one.
pub proof fn lemma_rows_view_push<F>()
    ensures
        forall|s: Seq<Vec<F>>, v: Vec<F>| #[trigger] rows_view(s.push(v)) == rows_view(s).push(v@),
{
    assert forall|s: Seq<Vec<F>>, v: Vec<F>| #[trigger] rows_view(s.push(v)) == rows_view(s).push(
        v@,
    ) by {
        assert(rows_view(s.push(v)) =~= rows_view(s).push(v@));
    }
}

/// Viewing the backing rows commutes with replacing one row.
pub proof fn lemma_rows_view_update<F>()
    ensures
        forall|rows: Seq<Vec<F>>, i: int, v: Vec<F>|
            0 <= i < rows.len() ==> #[trigger] rows_view(rows.update(i, v)) == rows_view(
                rows,
            ).update(i, v@),
{
    assert forall|rows: Seq<Vec<F>>, i: int, v: Vec<F>| 0 <= i < rows.len() implies #[trigger] rows_view(
        rows.update(i, v),
    ) == rows_view(rows).update(i, v@) by {
        assert(rows_view(rows.update(i, v)) =~= rows_view(rows).update(i, v@));
    }
}

/// Resolves each coordinate of `coords` to a borrow of its cell, dropping
/// any coordinate that fails to resolve. On a well-formed grid whose
/// coordinates all lie in range — the only way the traversal queries
/// produce them — nothing is ever dropped, so the result lines up with
/// `coords` one for one.
pub fn resolve_coords<'a, F>(rows: &'a Vec<Vec<F>>, coords: &Vec<(usize, usize)>) -> (r: Vec<
    &'a F,
>)
    requires
        grid_wf(rows_view(rows@)),
        all_in_range(
            height_of(rows_view(rows@)),
            width_of(rows_view(rows@)),
            coords_view(coords@),
        ),
    ensures
        refs_view(r@) == fields_at(rows_view(rows@), coords_view(coords@)),
{
    let ghost g = rows_view(rows@);
    let ghost target = fields_at(g, coords_view(coords@));
    let mut r: Vec<&'a F> = Vec::new();
    let mut i: usize = 0;
    while i < coords.len()
        invariant
            g == rows_view(rows@),
            grid_wf(g),
            all_in_range(height_of(g), width_of(g), coords_view(coords@)),
            target == fields_at(g, coords_view(coords@)),
            i <= coords@.len(),
            refs_view(r@) == target.take(i as int),
        decreases coords@.len() - i,
    {
        let c = coords[i];
        proof {
            assert(coords_view(coords@)[i as int] == (c.0 as int, c.1 as int));
            assert(in_range(height_of(g), width_of(g), c.0 as int, c.1 as int));
            assert(g[c.0 as int].len() == g[0].len());
            assert(rows@[c.0 as int]@ == g[c.0 as int]);
        }
        if c.0 < rows.len() {
            let row = &rows[c.0];
            if c.1 < row.len() {
                r.push(&row[c.1]);
            }
        }
        proof {
            lemma_take_succ::<F>();
            assert(coords_view(coords@)[i as int] == (c.0 as int, c.1 as int));
            assert(refs_view(r@) =~= target.take(i + 1));
        }
        i += 1;
    }
    proof {
        assert(refs_view(r@) =~= target);
    }
    r
}

/// Appends the candidate `(cy, cx)` to `r` exactly when it lies inside a
/// grid of `h` rows and `w` columns.
pub(crate) fn push_candidate(r: &mut Vec<(usize, usize)>, h: usize, w: usize, cy: usize, cx: usize)
    ensures
        coords_view(final(r)@) == coords_view(old(r)@) + keep_in_range(
            h as int,
            w as int,
            (cy as int, cx as int),
        ),
{
    if cx < w && cy < h {
        r.push((cy, cx));
        proof {
            assert(coords_view(r@) =~= coords_view(old(r)@) + keep_in_range(
                h as int,
                w as int,
                (cy as int, cx as int),
            ));
        }
    } else {
        proof {
            assert(coords_view(r@) =~= coords_view(r@) + keep_in_range(
                h as int,
                w as int,
                (cy as int, cx as int),
            ));
        }
    }
}

/// A rectangular grid of cells, any type that exposes its backing rows.
///
/// An implementor supplies the storage primitives (`get_grid`,
/// `get_grid_ref`, `get_grid_mut`, `set_grid`, `get_field_box`) together
/// with a default cell value and a way to copy a cell; every traversal query
/// is derived from those and verified here once for all implementors.
pub trait Grid: Sized {
    /// The value type stored in each cell.
    type Field;

    /// The mathematical contents of the grid: a sequence of rows.
    spec fn cells(&self) -> Seq<Seq<Self::Field>>;

    /// The default cell value that fills vacated space during a shift.
    spec fn default_field_spec() -> Self::Field;

    /// A full, independent copy of the backing rows.
    fn get_grid(&self) -> (g: Vec<Vec<Self::Field>>)
        ensures
            rows_view(g@) == self.cells(),
    ;

    /// An immutable borrow of the backing rows.
    fn get_grid_ref(&self) -> (g: &Vec<Vec<Self::Field>>)
        ensures
            rows_view(g@) == self.cells(),
    ;

    /// A mutable borrow of the backing rows; whatever the caller leaves in
    /// the borrow is what the grid holds afterwards.
    fn get_grid_mut(&mut self) -> (g: &mut Vec<Vec<Self::Field>>)
        ensures
            rows_view((*g)@) == old(self).cells(),
            final(self).cells() == rows_view((*final(g))@),
    ;

    /// Replaces the backing rows wholesale.
    fn set_grid(&mut self, grid: Vec<Vec<Self::Field>>)
        ensures
            final(self).cells() == rows_view(grid@),
    ;

    /// An owned, independent copy of the cell at `(y, x)`, or `None` when
    /// the coordinate misses the stored rows.
    fn get_field_box(&self, y: usize, x: usize) -> (r: Option<Box<Self::Field>>)
        ensures
            match r {
                Some(b) => y < self.cells().len() && x < self.cells()[y as int].len() && *b
                    == self.cells()[y as int][x as int],
                None => y >= self.cells().len() || x >= self.cells()[y as int].len(),
            },
    ;

    /// The default cell value.
    fn default_field() -> (r: Self::Field)
        ensures
            r == Self::default_field_spec(),
    ;

    /// An independent copy of one cell value.
    fn clone_field(f: &Self::Field) -> (r: Self::Field)
        ensures
            r == *f,
    ;

    /// The number of columns, read from the first row. The grid must have at
    /// least one row for a width to exist.
    fn get_width(&self) -> (w: usize)
        requires
            height_of(self.cells()) > 0,
        ensures
            w == width_of(self.cells()),
    {
        let g = self.get_grid_ref();
        proof {
            assert(g@.len() == self.cells().len());
            assert(g@[0]@ == self.cells()[0]);
        }
        g[0].len()
    }

    /// The number of rows.
    fn get_height(&self) -> (h: usize)
        ensures
            h == height_of(self.cells()),
    {
        let g = self.get_grid_ref();
        proof {
            assert(g@.len() == self.cells().len());
        }
        g.len()
    }

    /// A borrow of the cell at `(y, x)`, or `None` when the coordinate
    /// misses the stored rows.
    fn get_field_ref(&self, y: usize, x: usize) -> (r: Option<&Self::Field>)
        ensures
            match r {
                Some(f) => y < self.cells().len() && x < self.cells()[y as int].len() && *f
                    == self.cells()[y as int][x as int],
                None => y >= self.cells().len() || x >= self.cells()[y as int].len(),
            },
    {
        let g = self.get_grid_ref();
        proof {
            assert(g@.len() == self.cells().len());
        }
        if y < g.len() {
            let row = &g[y];
            proof {
                assert(g@[y as int]@ == self.cells()[y as int]);
            }
            if x < row.len() {
                Some(&row[x])
            } else {
                None
            }
        } else {
            None
        }
    }

    /// A mutable borrow of the cell at `(y, x)`, or `None` when the
    /// coordinate misses the stored rows; the grid afterwards holds whatever
    /// the caller leaves in the borrow.
    fn get_field_mut(&mut self, y: usize, x: usize) -> (r: Option<&mut Self::Field>)
        ensures
            match r {
                Some(f) => y < old(self).cells().len() && x < old(self).cells()[y as int].len()
                    && *f == old(self).cells()[y as int][x as int] && final(self).cells() == old(
                    self,
                ).cells().update(
                    y as int,
                    old(self).cells()[y as int].update(x as int, *final(f)),
                ),
                None => (y >= old(self).cells().len() || x >= old(self).cells()[y as int].len())
                    && final(self).cells() == old(self).cells(),
            },
    {
        proof {
            lemma_rows_view_update::<Self::Field>();
        }
        let g = self.get_grid_mut();
        if y < g.len() {
            let row = &mut g[y];
            if x < row.len() {
                Some(&mut row[x])
            } else {
                None
            }
        } else {
            None
        }
    }

    /// Overwrites the cell at `(y, x)`. The coordinate must name a stored
    /// cell: there is no bounds check here.
    fn set_field(&mut self, y: usize, x: usize, field: Self::Field)
        requires
            y < old(self).cells().len(),
            x < old(self).cells()[y as int].len(),
        ensures
            final(self).cells() == old(self).cells().update(
                y as int,
                old(self).cells()[y as int].update(x as int, field),
            ),
    {
        match self.get_field_mut(y, x) {
            Some(f) => {
                *f = field;
            },
            None => {
                proof {
                    assert(false);
                }
            },
        }
    }

    /// True exactly when `(y, x)` names a cell: `x` within the width and `y`
    /// within the height.
    fn in_bounds(&self, y: usize, x: usize) -> (b: bool)
        requires
            height_of(self.cells()) > 0,
        ensures
            b == in_range(height_of(self.cells()), width_of(self.cells()), y as int, x as int),
    {
        x < self.get_width() && y < self.get_height()
    }

    /// The coordinates of the Moore neighborhood of `(y, x)`: the up to
    /// eight surrounding cells, swept column by column from the left,
    /// clipped to the grid.
    fn neighbors_indices(&self, y: usize, x: usize) -> (r: Vec<(usize, usize)>)
        requires
            height_of(self.cells()) > 0,
        ensures
            coords_view(r@) == neighbor_seq(
                height_of(self.cells()),
                width_of(self.cells()),
                y as int,
                x as int,
            ),
    {
        let h = self.get_height();
        let w = self.get_width();
        let mut r: Vec<(usize, usize)> = Vec::new();
        if x > 0 {
            if y > 0 {
                push_candidate(&mut r, h, w, y - 1, x - 1);
            }
            push_candidate(&mut r, h, w, y, x - 1);
            if y < h {
                push_candidate(&mut r, h, w, y + 1, x - 1);
            }
        }
        if y > 0 {
            push_candidate(&mut r, h, w, y - 1, x);
        }
        if y < h {
            push_candidate(&mut r, h, w, y + 1, x);
        }
        if x < w {
            if y > 0 {
                push_candidate(&mut r, h, w, y - 1, x + 1);
            }
            push_candidate(&mut r, h, w, y, x + 1);
            if y < h {
                push_candidate(&mut r, h, w, y + 1, x + 1);
            }
        }
        proof {
            assert(coords_view(r@) =~= neighbor_seq(h as int, w as int, y as int, x as int));
        }
        r
    }

    /// The cells of the Moore neighborhood of `(y, x)`, in the order of
    /// `neighbors_indices`, each coordinate resolved to a borrow of its
    /// cell.
    fn neighbors_ref(&self, y: usize, x: usize) -> (r: Vec<&Self::Field>)
        requires
            grid_wf(self.cells()),
        ensures
            refs_view(r@) == fields_at(
                self.cells(),
                neighbor_seq(height_of(self.cells()), width_of(self.cells()), y as int, x as int),
            ),
    {
        let coords = self.neighbors_indices(y, x);
        proof {
            lemma_neighbor_seq_in_range(
                height_of(self.cells()),
                width_of(self.cells()),
                y as int,
                x as int,
            );
        }
        resolve_coords(self.get_grid_ref(), &coords)
    }

    /// The four diagonal rays branching from the cell `(y, x)`, each an
    /// origin-exclusive walk to the grid edge, nearest cell first: toward
    /// the upper-left, upper-right, lower-left and lower-right corner, in
    /// that order. A possible use case would be the bishop in chess.
    fn diagonals_indices(&self, y: usize, x: usize) -> (r: Vec<Vec<(usize, usize)>>)
        requires
            in_range(height_of(self.cells()), width_of(self.cells()), y as int, x as int),
        ensures
            r@.len() == 4,
            coords_view(r@[0]@) == up_left_ray(y as int, x as int),
            coords_view(r@[1]@) == up_right_ray(y as int, x as int, width_of(self.cells())),
            coords_view(r@[2]@) == down_left_ray(y as int, x as int, height_of(self.cells())),
            coords_view(r@[3]@) == down_right_ray(
                y as int,
                x as int,
                height_of(self.cells()),
                width_of(self.cells()),
            ),
    {
        let h = self.get_height();
        let w = self.get_width();

        let mut up_left: Vec<(usize, usize)> = Vec::new();
        let mut up_right: Vec<(usize, usize)> = Vec::new();
        let mut down_left: Vec<(usize, usize)> = Vec::new();
        let mut down_right: Vec<(usize, usize)> = Vec::new();

        let mut x_clone = x;
        let mut y_clone = y;
        while x_clone > 0 && y_clone > 0
            invariant
                h == height_of(self.cells()),
                w == width_of(self.cells()),
                y < h,
                x < w,
                y_clone <= y,
                x_clone <= x,
                y - y_clone == x - x_clone,
                coords_view(up_left@) == up_left_ray(y as int, x as int).take((y - y_clone) as int),
            decreases y_clone,
        {
            x_clone -= 1;
            y_clone -= 1;
            let target = (y_clone, x_clone);
            if self.in_bounds(target.0, target.1) {
                up_left.push(target);
            }
            proof {
                lemma_coords_view_push();
                lemma_take_succ::<(int, int)>();
                assert(coords_view(up_left@) =~= up_left_ray(y as int, x as int).take(
                    (y - y_clone) as int,
                ));
            }
        }
        x_clone = x;
        y_clone = y;
        while x_clone < w - 1 && y_clone > 0
            invariant
                h == height_of(self.cells()),
                w == width_of(self.cells()),
                y < h,
                x < w,
                y_clone <= y,
                x <= x_clone < w,
                x_clone - x == y - y_clone,
                coords_view(up_right@) == up_right_ray(y as int, x as int, w as int).take(
                    (y - y_clone) as int,
                ),
            decreases y_clone,
        {
            x_clone += 1;
            y_clone -= 1;
            let target = (y_clone, x_clone);
            if self.in_bounds(target.0, target.1) {
                up_right.push(target);
            }
            proof {
                lemma_coords_view_push();
                lemma_take_succ::<(int, int)>();
                assert(coords_view(up_right@) =~= up_right_ray(y as int, x as int, w as int).take(
                    (y - y_clone) as int,
                ));
            }
        }
        x_clone = x;
        y_clone = y;
        while x_clone > 0 && y_clone < h - 1
            invariant
                h == height_of(self.cells()),
                w == width_of(self.cells()),
                y < h,
                x < w,
                y <= y_clone < h,
                x_clone <= x,
                x - x_clone == y_clone - y,
                coords_view(down_left@) == down_left_ray(y as int, x as int, h as int).take(
                    (y_clone - y) as int,
                ),
            decreases x_clone,
        {
            x_clone -= 1;
            y_clone += 1;
            let target = (y_clone, x_clone);
            if self.in_bounds(target.0, target.1) {
                down_left.push(target);
            }
            proof {
                lemma_coords_view_push();
                lemma_take_succ::<(int, int)>();
                assert(coords_view(down_left@) =~= down_left_ray(y as int, x as int, h as int).take(
                    (y_clone - y) as int,
                ));
            }
        }
        x_clone = x;
        y_clone = y;
        while x_clone < w - 1 && y_clone < h - 1
            invariant
                h == height_of(self.cells()),
                w == width_of(self.cells()),
                y < h,
                x < w,
                y <= y_clone < h,
                x <= x_clone < w,
                x_clone - x == y_clone - y,
                coords_view(down_right@) == down_right_ray(y as int, x as int, h as int, w as int)
                    .take((y_clone - y) as int),
            decreases w - x_clone,
        {
            x_clone += 1;
            y_clone += 1;
            let target = (y_clone, x_clone);
            if self.in_bounds(target.0, target.1) {
                down_right.push(target);
            }
            proof {
                lemma_coords_view_push();
                lemma_take_succ::<(int, int)>();
                assert(coords_view(down_right@) =~= down_right_ray(
                    y as int,
                    x as int,
                    h as int,
                    w as int,
                ).take((y_clone - y) as int));
            }
        }

        let mut diagonals: Vec<Vec<(usize, usize)>> = Vec::new();
        proof {
            assert(coords_view(up_left@) =~= up_left_ray(y as int, x as int));
            assert(coords_view(up_right@) =~= up_right_ray(y as int, x as int, w as int));
            assert(coords_view(down_left@) =~= down_left_ray(y as int, x as int, h as int));
            assert(coords_view(down_right@) =~= down_right_ray(
                y as int,
                x as int,
                h as int,
                w as int,
            ));
        }
        diagonals.push(up_left);
        diagonals.push(up_right);
        diagonals.push(down_left);
        diagonals.push(down_right);
        diagonals
    }

    /// The four diagonal rays from the cell `(y, x)`, each coordinate
    /// resolved to a borrow of its cell, in the order of
    /// `diagonals_indices`.
    fn diagonals_ref(&self, y: usize, x: usize) -> (r: Vec<Vec<&Self::Field>>)
        requires
            grid_wf(self.cells()),
            in_range(height_of(self.cells()), width_of(self.cells()), y as int, x as int),
        ensures
            r@.len() == 4,
            refs_view(r@[0]@) == fields_at(self.cells(), up_left_ray(y as int, x as int)),
            refs_view(r@[1]@) == fields_at(
                self.cells(),
                up_right_ray(y as int, x as int, width_of(self.cells())),
            ),
            refs_view(r@[2]@) == fields_at(
                self.cells(),
                down_left_ray(y as int, x as int, height_of(self.cells())),
            ),
            refs_view(r@[3]@) == fields_at(
                self.cells(),
                down_right_ray(
                    y as int,
                    x as int,
                    height_of(self.cells()),
                    width_of(self.cells()),
                ),
            ),
    {
        let coords = self.diagonals_indices(y, x);
        let mut r: Vec<Vec<&Self::Field>> = Vec::new();
        proof {
            lemma_rays_in_range(
                height_of(self.cells()),
                width_of(self.cells()),
                y as int,
                x as int,
            );
        }
        r.push(resolve_coords(self.get_grid_ref(), &coords[0]));
        r.push(resolve_coords(self.get_grid_ref(), &coords[1]));
        r.push(resolve_coords(self.get_grid_ref(), &coords[2]));
        r.push(resolve_coords(self.get_grid_ref(), &coords[3]));
        r
    }

    /// The four straight rays branching from the cell `(y, x)`, each an
    /// origin-exclusive walk to the grid edge, nearest cell first: upward,
    /// downward, leftward and rightward, in that order.
    fn straight_indices(&self, y: usize, x: usize) -> (r: Vec<Vec<(usize, usize)>>)
        requires
            in_range(height_of(self.cells()), width_of(self.cells()), y as int, x as int),
        ensures
            r@.len() == 4,
            coords_view(r@[0]@) == up_ray(y as int, x as int),
            coords_view(r@[1]@) == down_ray(y as int, x as int, height_of(self.cells())),
            coords_view(r@[2]@) == left_ray(y as int, x as int),
            coords_view(r@[3]@) == right_ray(y as int, x as int, width_of(self.cells())),
    {
        let h = self.get_height();
        let w = self.get_width();

        let mut up: Vec<(usize, usize)> = Vec::new();
        let mut down: Vec<(usize, usize)> = Vec::new();
        let mut left: Vec<(usize, usize)> = Vec::new();
        let mut right: Vec<(usize, usize)> = Vec::new();

        let mut i: usize = 0;
        while i < x
            invariant
                i <= x,
                x < w,
                coords_view(left@) == left_ray(y as int, x as int).take(i as int),
            decreases x - i,
        {
            left.push((y, x - i - 1));
            i += 1;
            proof {
                lemma_coords_view_push();
                lemma_take_succ::<(int, int)>();
                assert(coords_view(left@) =~= left_ray(y as int, x as int).take(i as int));
            }
        }
        i = x + 1;
        while i < w
            invariant
                x < i <= w,
                coords_view(right@) == right_ray(y as int, x as int, w as int).take(
                    (i - x - 1) as int,
                ),
            decreases w - i,
        {
            right.push((y, i));
            i += 1;
            proof {
                lemma_coords_view_push();
                lemma_take_succ::<(int, int)>();
                assert(coords_view(right@) =~= right_ray(y as int, x as int, w as int).take(
                    (i - x - 1) as int,
                ));
            }
        }
        i = 0;
        while i < y
            invariant
                i <= y,
                y < h,
                coords_view(up@) == up_ray(y as int, x as int).take(i as int),
            decreases y - i,
        {
            up.push((y - i - 1, x));
            i += 1;
            proof {
                lemma_coords_view_push();
                lemma_take_succ::<(int, int)>();
                assert(coords_view(up@) =~= up_ray(y as int, x as int).take(i as int));
            }
        }
        i = y + 1;
        while i < h
            invariant
                y < i <= h,
                coords_view(down@) == down_ray(y as int, x as int, h as int).take((i - y - 1) as int),
            decreases h - i,
        {
            down.push((i, x));
            i += 1;
            proof {
                lemma_coords_view_push();
                lemma_take_succ::<(int, int)>();
                assert(coords_view(down@) =~= down_ray(y as int, x as int, h as int).take(
                    (i - y - 1) as int,
                ));
            }
        }

        let mut straight: Vec<Vec<(usize, usize)>> = Vec::new();
        proof {
            assert(coords_view(up@) =~= up_ray(y as int, x as int));
            assert(coords_view(down@) =~= down_ray(y as int, x as int, h as int));
            assert(coords_view(left@) =~= left_ray(y as int, x as int));
            assert(coords_view(right@) =~= right_ray(y as int, x as int, w as int));
        }
        straight.push(up);
        straight.push(down);
        straight.push(left);
        straight.push(right);
        straight
    }

    /// The four straight rays from the cell `(y, x)`, each coordinate
    /// resolved to a borrow of its cell, in the order of
    /// `straight_indices`.
    fn straight_ref(&self, y: usize, x: usize) -> (r: Vec<Vec<&Self::Field>>)
        requires
            grid_wf(self.cells()),
            in_range(height_of(self.cells()), width_of(self.cells()), y as int, x as int),
        ensures
            r@.len() == 4,
            refs_view(r@[0]@) == fields_at(self.cells(), up_ray(y as int, x as int)),
            refs_view(r@[1]@) == fields_at(
                self.cells(),
                down_ray(y as int, x as int, height_of(self.cells())),
            ),
            refs_view(r@[2]@) == fields_at(self.cells(), left_ray(y as int, x as int)),
            refs_view(r@[3]@) == fields_at(
                self.cells(),
                right_ray(y as int, x as int, width_of(self.cells())),
            ),
    {
        let coords = self.straight_indices(y, x);
        let mut r: Vec<Vec<&Self::Field>> = Vec::new();
        proof {
            lemma_rays_in_range(
                height_of(self.cells()),
                width_of(self.cells()),
                y as int,
                x as int,
            );
        }
        r.push(resolve_coords(self.get_grid_ref(), &coords[0]));
        r.push(resolve_coords(self.get_grid_ref(), &coords[1]));
        r.push(resolve_coords(self.get_grid_ref(), &coords[2]));
        r.push(resolve_coords(self.get_grid_ref(), &coords[3]));
        r
    }

    /// The coordinates reachable from `(y, x)` by offsetting one axis by
    /// `offset.0` and the other by `offset.1`, in every sign and axis
    /// combination — the knight's move set for the offset `(2, 1)`. Both
    /// offsets must be non-negative magnitudes; candidates that leave the
    /// grid are discarded, and no deduplication is performed.
    fn knight_like_indices(&self, y: usize, x: usize, offset: (isize, isize)) -> (r: Vec<
        (usize, usize),
    >)
        requires
            height_of(self.cells()) > 0,
            offset.0 >= 0,
            offset.1 >= 0,
        ensures
            coords_view(r@) == jump_seq(
                height_of(self.cells()),
                width_of(self.cells()),
                y as int,
                x as int,
                offset.0 as int,
                offset.1 as int,
            ),
    {
        let h = self.get_height();
        let w = self.get_width();
        let a = offset.0 as usize;
        let b = offset.1 as usize;
        let mut r: Vec<(usize, usize)> = Vec::new();
        if b <= usize::MAX - y && a <= usize::MAX - x {
            push_candidate(&mut r, h, w, y + b, x + a);
        }
        if b <= usize::MAX - y && a <= x {
            push_candidate(&mut r, h, w, y + b, x - a);
        }
        if b <= y && a <= usize::MAX - x {
            push_candidate(&mut r, h, w, y - b, x + a);
        }
        if b <= y && a <= x {
            push_candidate(&mut r, h, w, y - b, x - a);
        }
        if a <= usize::MAX - y && b <= usize::MAX - x {
            push_candidate(&mut r, h, w, y + a, x + b);
        }
        if a <= usize::MAX - y && b <= x {
            push_candidate(&mut r, h, w, y + a, x - b);
        }
        if a <= y && b <= usize::MAX - x {
            push_candidate(&mut r, h, w, y - a, x + b);
        }
        if a <= y && b <= x {
            push_candidate(&mut r, h, w, y - a, x - b);
        }
        proof {
            assert(coords_view(r@) =~= jump_seq(
                h as int,
                w as int,
                y as int,
                x as int,
                a as int,
                b as int,
            ));
        }
        r
    }

    /// Grows the grid by `y` rows and `x` columns, replacing the backing
    /// rows wholesale: every existing row is left-padded with `x` default
    /// cells, and `y` default-filled rows of the new width are prepended
    /// when `start` holds, appended otherwise.
    fn shift_positive(&mut self, y: usize, x: usize, start: bool) -> (r: Result<(), String>)
        requires
            grid_wf(old(self).cells()),
            old(self).cells().len() + y <= usize::MAX,
            old(self).cells()[0].len() + x <= usize::MAX,
        ensures
            r == Ok::<(), String>(()),
            final(self).cells() == grown(
                old(self).cells(),
                y as int,
                x as int,
                start,
                Self::default_field_spec(),
            ),
    {
        let ghost g0 = self.cells();
        let ghost d = Self::default_field_spec();
        let h = self.get_height();
        let w = self.get_width();
        let ghost pads = Seq::new(y as nat, |k: int| default_row(w + x, d));
        let mut new_grid: Vec<Vec<Self::Field>> = Vec::new();
        if start {
            let mut i: usize = 0;
            while i < y
                invariant
                    i <= y,
                    w + x <= usize::MAX,
                    d == Self::default_field_spec(),
                    pads == Seq::new(y as nat, |k: int| default_row(w + x, d)),
                    rows_view(new_grid@) == pads.take(i as int),
                decreases y - i,
            {
                let mut row: Vec<Self::Field> = Vec::new();
                let mut j: usize = 0;
                while j < w + x
                    invariant
                        j <= w + x,
                        w + x <= usize::MAX,
                        d == Self::default_field_spec(),
                        row@ == default_row(j as int, d),
                    decreases w + x - j,
                {
                    row.push(Self::default_field());
                    proof {
                        assert(row@ =~= default_row(j as int + 1, d));
                    }
                    j += 1;
                }
                new_grid.push(row);
                proof {
                    lemma_rows_view_push::<Self::Field>();
                    assert(row@ =~= pads[i as int]);
                    assert(rows_view(new_grid@) =~= pads.take(i as int + 1));
                }
                i += 1;
            }
        }
        let ghost base = rows_view(new_grid@);
        let mut i: usize = 0;
        while i < h
            invariant
                i <= h,
                self.cells() == g0,
                grid_wf(g0),
                h == g0.len(),
                w as int == width_of(g0),
                w + x <= usize::MAX,
                d == Self::default_field_spec(),
                rows_view(new_grid@) == base + padded_rows(g0, x as int, d).take(i as int),
            decreases h - i,
        {
            let mut row: Vec<Self::Field> = Vec::new();
            let mut j: usize = 0;
            while j < x
                invariant
                    j <= x,
                    d == Self::default_field_spec(),
                    row@ == default_row(j as int, d),
                decreases x - j,
            {
                row.push(Self::default_field());
                proof {
                    assert(row@ =~= default_row(j as int + 1, d));
                }
                j += 1;
            }
            let mut j: usize = 0;
            while j < w
                invariant
                    j <= w,
                    i < h,
                    self.cells() == g0,
                    grid_wf(g0),
                    h == g0.len(),
                    w as int == width_of(g0),
                    d == Self::default_field_spec(),
                    row@ == default_row(x as int, d) + g0[i as int].take(j as int),
                decreases w - j,
            {
                match self.get_field_ref(i, j) {
                    Some(f) => {
                        let c = Self::clone_field(f);
                        row.push(c);
                    },
                    None => {
                        proof {
                            assert(g0[i as int].len() == g0[0].len());
                            assert(false);
                        }
                        return Err("field lookup failed during shift".to_owned());
                    },
                }
                proof {
                    lemma_take_succ::<Self::Field>();
                    assert(row@ =~= default_row(x as int, d) + g0[i as int].take(j as int + 1));
                }
                j += 1;
            }
            new_grid.push(row);
            proof {
                lemma_rows_view_push::<Self::Field>();
                assert(g0[i as int].take(g0[i as int].len() as int) =~= g0[i as int]);
                assert(row@ == padded_rows(g0, x as int, d)[i as int]);
                assert(rows_view(new_grid@) =~= base + padded_rows(g0, x as int, d).take(
                    i as int + 1,
                ));
            }
            i += 1;
        }
        proof {
            assert(padded_rows(g0, x as int, d).take(g0.len() as int) =~= padded_rows(
                g0,
                x as int,
                d,
            ));
        }
        if !start {
            let ghost mid = rows_view(new_grid@);
            let mut i: usize = 0;
            while i < y
                invariant
                    i <= y,
                    w + x <= usize::MAX,
                    d == Self::default_field_spec(),
                    pads == Seq::new(y as nat, |k: int| default_row(w + x, d)),
                    rows_view(new_grid@) == mid + pads.take(i as int),
                decreases y - i,
            {
                let mut row: Vec<Self::Field> = Vec::new();
                let mut j: usize = 0;
                while j < w + x
                    invariant
                        j <= w + x,
                        w + x <= usize::MAX,
                        d == Self::default_field_spec(),
                        row@ == default_row(j as int, d),
                    decreases w + x - j,
                {
                    row.push(Self::default_field());
                    proof {
                        assert(row@ =~= default_row(j as int + 1, d));
                    }
                    j += 1;
                }
                new_grid.push(row);
                proof {
                    lemma_rows_view_push::<Self::Field>();
                    assert(row@ =~= pads[i as int]);
                    assert(rows_view(new_grid@) =~= mid + pads.take(i as int + 1));
                }
                i += 1;
            }
        }
        proof {
            assert(pads.take(y as int) =~= pads);
            assert(base + padded_rows(g0, x as int, d) =~= if start {
                pads + padded_rows(g0, x as int, d)
            } else {
                padded_rows(g0, x as int, d)
            });
            assert(rows_view(new_grid@) =~= grown(g0, y as int, x as int, start, d));
        }
        self.set_grid(new_grid);
        Ok(())
    }

    /// Shrinks the grid by `y` rows and `x` columns, replacing the backing
    /// rows wholesale: the first `y` rows and `x` columns are dropped when
    /// `start` holds, the last ones otherwise. It is essentially the same
    /// as calling `shift` with negative values.
    fn shift_negative(&mut self, y: usize, x: usize, start: bool) -> (r: Result<(), String>)
        requires
            grid_wf(old(self).cells()),
            y <= old(self).cells().len(),
            x <= old(self).cells()[0].len(),
        ensures
            r == Ok::<(), String>(()),
            final(self).cells() == cropped(old(self).cells(), y as int, x as int, start),
    {
        let ghost g0 = self.cells();
        let ghost target = cropped(g0, y as int, x as int, start);
        let h = self.get_height();
        let w = self.get_width();
        let mut new_grid: Vec<Vec<Self::Field>> = Vec::new();
        if start {
            let mut i: usize = y;
            while i < h
                invariant
                    y <= i <= h,
                    x <= w,
                    self.cells() == g0,
                    grid_wf(g0),
                    h == g0.len(),
                    w as int == width_of(g0),
                    target == cropped(g0, y as int, x as int, true),
                    rows_view(new_grid@) == target.take(i - y),
                decreases h - i,
            {
                let mut row: Vec<Self::Field> = Vec::new();
                let mut j: usize = x;
                while j < w
                    invariant
                        x <= j <= w,
                        y <= i < h,
                        self.cells() == g0,
                        grid_wf(g0),
                        h == g0.len(),
                        w as int == width_of(g0),
                        row@ == g0[i as int].subrange(x as int, j as int),
                    decreases w - j,
                {
                    match self.get_field_ref(i, j) {
                        Some(f) => {
                            let c = Self::clone_field(f);
                            row.push(c);
                        },
                        None => {
                            proof {
                                assert(g0[i as int].len() == g0[0].len());
                                assert(false);
                            }
                            return Err("field lookup failed during shift".to_owned());
                        },
                    }
                    proof {
                        lemma_subrange_succ::<Self::Field>();
                        assert(g0[i as int].len() == g0[0].len());
                        assert(row@ =~= g0[i as int].subrange(x as int, j as int + 1));
                    }
                    j += 1;
                }
                new_grid.push(row);
                proof {
                    lemma_rows_view_push::<Self::Field>();
                    assert(g0[i as int].len() == g0[0].len());
                    assert(row@ == target[i - y]);
                    assert(rows_view(new_grid@) =~= target.take(i - y + 1));
                }
                i += 1;
            }
        } else {
            let mut i: usize = 0;
            while i < h - y
                invariant
                    i <= h - y,
                    y <= h,
                    x <= w,
                    self.cells() == g0,
                    grid_wf(g0),
                    h == g0.len(),
                    w as int == width_of(g0),
                    target == cropped(g0, y as int, x as int, false),
                    rows_view(new_grid@) == target.take(i as int),
                decreases h - y - i,
            {
                let mut row: Vec<Self::Field> = Vec::new();
                let mut j: usize = 0;
                while j < w - x
                    invariant
                        j <= w - x,
                        x <= w,
                        i < h,
                        self.cells() == g0,
                        grid_wf(g0),
                        h == g0.len(),
                        w as int == width_of(g0),
                        row@ == g0[i as int].subrange(0, j as int),
                    decreases w - x - j,
                {
                    match self.get_field_ref(i, j) {
                        Some(f) => {
                            let c = Self::clone_field(f);
                            row.push(c);
                        },
                        None => {
                            proof {
                                assert(g0[i as int].len() == g0[0].len());
                                assert(false);
                            }
                            return Err("field lookup failed during shift".to_owned());
                        },
                    }
                    proof {
                        lemma_subrange_succ::<Self::Field>();
                        assert(g0[i as int].len() == g0[0].len());
                        assert(row@ =~= g0[i as int].subrange(0, j as int + 1));
                    }
                    j += 1;
                }
                new_grid.push(row);
                proof {
                    lemma_rows_view_push::<Self::Field>();
                    assert(row@ == target[i as int]);
                    assert(rows_view(new_grid@) =~= target.take(i as int + 1));
                }
                i += 1;
            }
        }
        proof {
            assert(rows_view(new_grid@) =~= target);
        }
        self.set_grid(new_grid);
        Ok(())
    }

    /// Translates the grid by the signed delta `(y, x)`: non-negative
    /// deltas grow the grid, negative ones shrink it by their magnitudes,
    /// with `start` choosing the end that the rows are padded at or dropped
    /// from. The two axes dispatch together, so a mixed-sign shift must be
    /// decomposed by the caller into two calls.
    fn shift(&mut self, y: isize, x: isize, start: bool) -> (r: Result<(), String>)
        requires
            grid_wf(old(self).cells()),
            y >= 0 && x >= 0 ==> old(self).cells().len() + y <= usize::MAX && old(
                self,
            ).cells()[0].len() + x <= usize::MAX,
            y < 0 || x < 0 ==> y <= 0 && x <= 0 && -(y as int) <= old(self).cells().len() && -(
            x as int) <= old(self).cells()[0].len(),
        ensures
            r == Ok::<(), String>(()),
            y >= 0 && x >= 0 ==> final(self).cells() == grown(
                old(self).cells(),
                y as int,
                x as int,
                start,
                Self::default_field_spec(),
            ),
            y < 0 || x < 0 ==> final(self).cells() == cropped(
                old(self).cells(),
                -(y as int),
                -(x as int),
                start,
            ),
    {
        if y < 0 || x < 0 {
            // negate by way of `y + 1` so that the smallest `isize` cannot
            // overflow the negation
            let yy: usize = if y < 0 {
                (-(y + 1)) as usize + 1
            } else {
                0
            };
            let xx: usize = if x < 0 {
                (-(x + 1)) as usize + 1
            } else {
                0
            };
            self.shift_negative(yy, xx, start)
        } else {
            self.shift_positive(y as usize, x as usize, start)
        }
    }
}

} // verus!
