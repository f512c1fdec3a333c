//! The background panel: generation, highlighting of the largest curve, and
//! the cells handed to a renderer.
use vstd::prelude::*;
use crate::curves::{Pos, idx, in_grid, masks, all_curves, is_first_largest, largest_component};
use crate::tiles::{BackgroundTile, TileColor, TileVariant, ERROR_SYMBOL, tiles_from_outcome, outcome_view};

verus! {

broadcast use vstd::seq_lib::lemma_seq_contains_after_push;

/// Colour of the cells outside the highlighted curve.
pub open spec fn base_color(outcome: Option<Seq<TileVariant>>) -> TileColor {
    match outcome {
        Some(_) => TileColor::DarkGray,
        None => TileColor::White,
    }
}

/// Glyph and connections of cell `i` as the solver's outcome fixes them.
pub open spec fn shape_matches(outcome: Option<Seq<TileVariant>>, i: int, t: BackgroundTile) -> bool {
    match outcome {
        Some(a) => t.symbol == a[i].symbol && t.connections == a[i].borders,
        None => t.symbol == ERROR_SYMBOL && t.connections@ == seq![false, false, false, false],
    }
}

/// `grid` is what generation yields for the solver's outcome on a
/// `w` by `h` grid: each cell shaped as the outcome says, the first largest
/// curve in the highlight colour and every other cell in the base colour.
pub open spec fn is_generated(outcome: Option<Seq<TileVariant>>, w: int, h: int, grid: Seq<BackgroundTile>) -> bool {
    &&& grid.len() == w * h
    &&& forall|i: int| 0 <= i < w * h ==> shape_matches(outcome, i, #[trigger] grid[i])
    &&& exists|k: int|
        is_first_largest(all_curves(masks(grid), w, h), k) && forall|c: Pos|
            in_grid(w, h, c) ==> (#[trigger] grid[idx(w, c)]).color == if all_curves(masks(grid), w, h)[k].contains(c) {
                TileColor::Gray
            } else {
                base_color(outcome)
            }
}

/// One cell handed to the renderer.
#[derive(Clone, Copy, Debug)]
pub struct DrawnCell {
    pub x: usize,
    pub y: usize,
    pub symbol: char,
    pub color: TileColor,
}

/// The background: a grid of tiles with its dimensions.
pub struct BackgroundPanel {
    grid: Vec<BackgroundTile>,
    width: usize,
    height: usize,
}

/// Builds the cells for the solver's outcome (the fallback grid when it
/// found no assignment) and highlights the first largest curve.
pub fn generate_grid(width: usize, height: usize, outcome: &Option<Vec<TileVariant>>) -> (r: Vec<BackgroundTile>)
    requires
        width > 0,
        height > 0,
        width * height <= usize::MAX,
        outcome matches Some(a) ==> a.len() == width * height,
    ensures
        is_generated(outcome_view(*outcome), width as int, height as int, r@),
{
    let ghost w = width as int;
    let ghost h = height as int;
    let n = width * height;
    let mut grid = tiles_from_outcome(n, outcome);
    let curve = largest_component(&grid, width, height);
    let ghost g0 = grid@;
    let ghost cs = all_curves(masks(g0), w, h);
    let mut j: usize = 0;
    while j < curve.len()
        invariant
            w == width,
            h == height,
            width > 0,
            height > 0,
            n == width * height,
            grid.len() == n,
            g0.len() == n,
            j <= curve.len(),
            forall|m: int| 0 <= m < curve.len() ==> in_grid(w, h, #[trigger] curve[m]),
            forall|i: int|
                0 <= i < n ==> (#[trigger] grid[i]).symbol == g0[i].symbol && grid[i].connections
                    == g0[i].connections,
            forall|c: Pos|
                in_grid(w, h, c) ==> (#[trigger] grid[idx(w, c)]).color == if curve@.take(j as int).contains(c) {
                    TileColor::Gray
                } else {
                    g0[idx(w, c)].color
                },
        decreases curve.len() - j,
    {
        let (x, y) = curve[j];
        let ghost c = curve[j as int];
        proof {
            crate::curves::lemma_idx_bounds(w, h, c);
            assert(curve@.take(j + 1) == curve@.take(j as int).push(c));
        }
        let index = y * width + x;
        let t = grid[index];
        grid.set(index, BackgroundTile { symbol: t.symbol, color: TileColor::Gray, connections: t.connections });
        assert forall|d: Pos| in_grid(w, h, d) implies (#[trigger] grid[idx(w, d)]).color == if curve@.take(
            j + 1,
        ).contains(d) {
            TileColor::Gray
        } else {
            g0[idx(w, d)].color
        } by {
            crate::curves::lemma_idx_bounds(w, h, d);
            if d != c && idx(w, d) == idx(w, c) {
                crate::curves::lemma_idx_injective(w, h, d, c);
            }
        }
        j = j + 1;
    }
    proof {
        assert(masks(grid@) =~= masks(g0));
        assert(curve@.take(curve.len() as int) == curve@);
        let k = choose|k: int| is_first_largest(cs, k) && curve@.to_set() == #[trigger] cs[k];
        assert forall|c: Pos| in_grid(w, h, c) implies (#[trigger] grid[idx(w, c)]).color == if all_curves(
            masks(grid@),
            w,
            h,
        )[k].contains(c) {
            TileColor::Gray
        } else {
            base_color(outcome_view(*outcome))
        } by {
            crate::curves::lemma_idx_bounds(w, h, c);
            assert(curve@.to_set().contains(c) == curve@.contains(c));
        }
    }
    grid
}

impl BackgroundPanel {
    pub closed spec fn spec_width(&self) -> nat {
        self.width as nat
    }

    pub closed spec fn spec_height(&self) -> nat {
        self.height as nat
    }

    pub closed spec fn spec_grid(&self) -> Seq<BackgroundTile> {
        self.grid@
    }

    /// Dimensions are positive and the grid holds one cell for each position.
    pub closed spec fn wf(&self) -> bool {
        &&& self.width > 0
        &&& self.height > 0
        &&& self.grid.len() == self.width * self.height
    }

    /// A panel of the given size, generated from the solver's outcome for it.
    pub fn new(width: usize, height: usize, outcome: Option<Vec<TileVariant>>) -> (r: Self)
        requires
            width > 0,
            height > 0,
            width * height <= usize::MAX,
            outcome matches Some(a) ==> a.len() == width * height,
        ensures
            r.wf(),
            r.spec_width() == width,
            r.spec_height() == height,
            is_generated(outcome_view(outcome), width as int, height as int, r.spec_grid()),
    {
        let grid = generate_grid(width, height, &outcome);
        BackgroundPanel { grid, width, height }
    }

    /// Replaces the whole grid with one generated from a new outcome of the
    /// solver, keeping the dimensions.
    pub fn regenerate(&mut self, outcome: Option<Vec<TileVariant>>)
        requires
            old(self).wf(),
            outcome matches Some(a) ==> a.len() == old(self).spec_width() * old(self).spec_height(),
        ensures
            final(self).wf(),
            final(self).spec_width() == old(self).spec_width(),
            final(self).spec_height() == old(self).spec_height(),
            is_generated(
                outcome_view(outcome),
                final(self).spec_width() as int,
                final(self).spec_height() as int,
                final(self).spec_grid(),
            ),
    {
        self.grid = generate_grid(self.width, self.height, &outcome);
    }

    pub fn width(&self) -> (r: usize)
        ensures
            r == self.spec_width(),
    {
        self.width
    }

    pub fn height(&self) -> (r: usize)
        ensures
            r == self.spec_height(),
    {
        self.height
    }

    /// The cell at `(x, y)`.
    pub fn tile(&self, x: usize, y: usize) -> (r: BackgroundTile)
        requires
            self.wf(),
            x < self.spec_width(),
            y < self.spec_height(),
        ensures
            r == self.spec_grid()[idx(self.spec_width() as int, (x, y))],
    {
        proof {
            crate::curves::lemma_idx_bounds(self.width as int, self.height as int, (x, y));
        }
        self.grid[y * self.width + x]
    }

    /// The cells to show in a view of the given size, row by row: every
    /// position inside both the view and the grid, nothing outside.
    pub fn draw(&self, view_width: usize, view_height: usize) -> (r: Vec<DrawnCell>)
        requires
            self.wf(),
        ensures
            ({
                let mw = if view_width < self.spec_width() { view_width as int } else { self.spec_width() as int };
                let mh = if view_height < self.spec_height() { view_height as int } else { self.spec_height() as int };
                &&& r.len() == mw * mh
                &&& forall|x: int, y: int|
                    0 <= x < mw && 0 <= y < mh ==> {
                        let d = #[trigger] r[y * mw + x];
                        let t = self.spec_grid()[y * self.spec_width() + x];
                        d.x == x && d.y == y && d.symbol == t.symbol && d.color == t.color
                    }
            }),
    {
        let mw = if view_width < self.width { view_width } else { self.width };
        let mh = if view_height < self.height { view_height } else { self.height };
        let ghost w = self.width as int;
        let ghost h = self.height as int;
        let mut r: Vec<DrawnCell> = Vec::new();
        let mut y: usize = 0;
        while y < mh
            invariant
                self.wf(),
                w == self.width,
                h == self.height,
                mw <= self.width,
                mh <= self.height,
                y <= mh,
                r.len() == y * mw,
                forall|xx: int, yy: int|
                    0 <= xx < mw && 0 <= yy < y ==> {
                        let d = #[trigger] r[yy * mw + xx];
                        let t = self.grid@[yy * w + xx];
                        d.x == xx && d.y == yy && d.symbol == t.symbol && d.color == t.color
                    },
            decreases mh - y,
        {
            let mut x: usize = 0;
            while x < mw
                invariant
                    self.wf(),
                    w == self.width,
                    h == self.height,
                    mw <= self.width,
                    mh <= self.height,
                    y < mh,
                    x <= mw,
                    r.len() == y * mw + x,
                    forall|xx: int, yy: int|
                        0 <= xx < mw && 0 <= yy < y ==> {
                            let d = #[trigger] r[yy * mw + xx];
                            let t = self.grid@[yy * w + xx];
                            d.x == xx && d.y == yy && d.symbol == t.symbol && d.color == t.color
                        },
                    forall|xx: int|
                        0 <= xx < x ==> {
                            let d = #[trigger] r[y * mw + xx];
                            let t = self.grid@[y * w + xx];
                            d.x == xx && d.y == y && d.symbol == t.symbol && d.color == t.color
                        },
                decreases mw - x,
            {
                proof {
                    crate::curves::lemma_idx_bounds(w, h, (x, y));
                }
                let t = self.grid[y * self.width + x];
                let ghost r0 = r@;
                r.push(DrawnCell { x, y, symbol: t.symbol, color: t.color });
                assert forall|xx: int, yy: int| 0 <= xx < mw && 0 <= yy < y implies #[trigger] r[yy * mw + xx]
                    == r0[yy * mw + xx] by {
                    assert(yy * mw + xx < y * mw) by (nonlinear_arith)
                        requires
                            0 <= xx < mw,
                            0 <= yy < y,
                    ;
                }
                x = x + 1;
            }
            proof {
                assert(y * mw + mw == (y + 1) * mw) by (nonlinear_arith);
            }
            y = y + 1;
        }
        assert(mh * mw == mw * mh) by (nonlinear_arith);
        r
    }
}

} // verus!
