//! The tile catalog and the cells the grid generator builds from the
//! solver's outcome.
use vstd::prelude::*;

verus! {

/// Glyph drawn on every cell of the grid that replaces an infeasible one.
pub const ERROR_SYMBOL: char = '!';

/// Display colour of a cell.
#[derive(Clone, Copy, Debug, PartialEq, Eq, Structural)]
pub enum TileColor {
    /// Neutral colour of a generated cell.
    DarkGray,
    /// Colour of the cells of the largest curve.
    Gray,
    /// Colour of the cells of the grid that replaces an infeasible one.
    White,
}

/// One appearance a cell may take: a glyph and the sides (top, right,
/// bottom, left) that a curve segment touches.
#[derive(Clone, Copy, Debug)]
pub struct TileVariant {
    pub symbol: char,
    pub borders: [bool; 4],
}

/// One cell of the background grid.
#[derive(Clone, Copy, Debug)]
pub struct BackgroundTile {
    pub symbol: char,
    pub color: TileColor,
    pub connections: [bool; 4],
}

/// The catalog as a sequence of (glyph, top, right, bottom, left).
pub open spec fn catalog_spec() -> Seq<(char, bool, bool, bool, bool)> {
    seq![
        (' ', false, false, false, false),
        ('─', false, true, false, true),
        ('╭', false, true, true, false),
        ('╯', true, false, false, true),
        ('╮', false, false, true, true),
        ('╰', true, true, false, false),
    ]
}

pub open spec fn variant_matches(t: TileVariant, e: (char, bool, bool, bool, bool)) -> bool {
    &&& t.symbol == e.0
    &&& t.borders[0] == e.1
    &&& t.borders[1] == e.2
    &&& t.borders[2] == e.3
    &&& t.borders[3] == e.4
}

/// The fixed set of tile variants handed to the solver: the blank tile, the
/// horizontal line, and the four quarter-turn corners.
pub fn tile_catalog() -> (r: Vec<TileVariant>)
    ensures
        r.len() == catalog_spec().len(),
        forall|i: int| 0 <= i < r.len() ==> variant_matches(#[trigger] r[i], catalog_spec()[i]),
{
    vec![
        TileVariant { borders: [false, false, false, false], symbol: ' ' },
        TileVariant { borders: [false, true, false, true], symbol: '─' },
        TileVariant { borders: [false, true, true, false], symbol: '╭' },
        TileVariant { borders: [true, false, false, true], symbol: '╯' },
        TileVariant { borders: [false, false, true, true], symbol: '╮' },
        TileVariant { borders: [true, true, false, false], symbol: '╰' },
    ]
}

/// A cell that stands for no connection at all: the error glyph in the
/// attention colour.
pub open spec fn is_error_tile(t: BackgroundTile) -> bool {
    &&& t.symbol == ERROR_SYMBOL
    &&& t.color == TileColor::White
    &&& t.connections@ == seq![false, false, false, false]
}

/// The grid used when no tile assignment exists: `n` cells, each with the
/// error glyph, the attention colour and no connection.
pub fn fallback_grid(n: usize) -> (r: Vec<BackgroundTile>)
    ensures
        r.len() == n,
        forall|i: int| 0 <= i < n ==> is_error_tile(#[trigger] r[i]),
{
    let mut r: Vec<BackgroundTile> = Vec::with_capacity(n);
    let mut i: usize = 0;
    while i < n
        invariant
            i <= n,
            r.len() == i,
            forall|j: int| 0 <= j < i ==> is_error_tile(#[trigger] r[j]),
        decreases n - i,
    {
        let t = BackgroundTile {
            symbol: ERROR_SYMBOL,
            color: TileColor::White,
            connections: [false, false, false, false],
        };
        assert(t.connections@ =~= seq![false, false, false, false]);
        r.push(t);
        i = i + 1;
    }
    r
}

/// A generated cell for a chosen variant, in the neutral colour.
pub open spec fn is_tile_of(t: BackgroundTile, v: TileVariant) -> bool {
    &&& t.symbol == v.symbol
    &&& t.color == TileColor::DarkGray
    &&& t.connections == v.borders
}

/// The cells for a solver assignment given in row-major order: each keeps
/// its variant's glyph and borders, in the neutral colour.
pub fn tiles_from_assignment(assignment: &Vec<TileVariant>) -> (r: Vec<BackgroundTile>)
    ensures
        r.len() == assignment.len(),
        forall|i: int| 0 <= i < r.len() ==> is_tile_of(#[trigger] r[i], assignment[i]),
{
    let mut r: Vec<BackgroundTile> = Vec::with_capacity(assignment.len());
    let mut i: usize = 0;
    while i < assignment.len()
        invariant
            i <= assignment.len(),
            r.len() == i,
            forall|j: int| 0 <= j < i ==> is_tile_of(#[trigger] r[j], assignment[j]),
        decreases assignment.len() - i,
    {
        let v = assignment[i];
        r.push(BackgroundTile { symbol: v.symbol, color: TileColor::DarkGray, connections: v.borders });
        i = i + 1;
    }
    r
}

/// Cell `i` as the generator produces it for a solver outcome: the
/// assignment's tile when one was found, otherwise the error tile.
pub open spec fn generated_tile(outcome: Option<Seq<TileVariant>>, i: int, t: BackgroundTile) -> bool {
    match outcome {
        Some(a) => is_tile_of(t, a[i]),
        None => is_error_tile(t),
    }
}

/// Turns the solver's outcome for a grid of `n` cells into cells: on success
/// the assignment's tiles in row-major order, on infeasibility the fallback grid.
pub fn tiles_from_outcome(n: usize, outcome: &Option<Vec<TileVariant>>) -> (r: Vec<BackgroundTile>)
    requires
        outcome matches Some(a) ==> a.len() == n,
    ensures
        r.len() == n,
        forall|i: int| 0 <= i < n ==> generated_tile(outcome_view(*outcome), i, #[trigger] r[i]),
{
    match outcome {
        Some(a) => tiles_from_assignment(a),
        None => fallback_grid(n),
    }
}

pub open spec fn outcome_view(outcome: Option<Vec<TileVariant>>) -> Option<Seq<TileVariant>> {
    match outcome {
        Some(a) => Some(a@),
        None => None,
    }
}

} // verus!
