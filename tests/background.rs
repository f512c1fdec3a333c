use cerbere::curves::{find_curves, largest_component, Pos};
use cerbere::panel::{generate_grid, BackgroundPanel};
use cerbere::tiles::{fallback_grid, tile_catalog, tiles_from_assignment, tiles_from_outcome, BackgroundTile, TileColor, TileVariant};

fn tile(connections: [bool; 4]) -> BackgroundTile {
    BackgroundTile { symbol: 'x', color: TileColor::DarkGray, connections }
}

fn sorted(mut v: Vec<Pos>) -> Vec<Pos> {
    v.sort();
    v
}

const NONE: [bool; 4] = [false, false, false, false];
const RIGHT: [bool; 4] = [false, true, false, false];
const LEFT: [bool; 4] = [false, false, false, true];

#[test]
fn catalog_has_blank_line_and_four_corners() {
    let c = tile_catalog();
    assert_eq!(c.len(), 6);
    let expected = [
        (' ', [false, false, false, false]),
        ('─', [false, true, false, true]),
        ('╭', [false, true, true, false]),
        ('╯', [true, false, false, true]),
        ('╮', [false, false, true, true]),
        ('╰', [true, true, false, false]),
    ];
    for (t, (symbol, borders)) in c.iter().zip(expected.iter()) {
        assert_eq!(t.symbol, *symbol);
        assert_eq!(t.borders, *borders);
    }
}

#[test]
fn fallback_grid_is_uniform_and_unconnected() {
    let g = fallback_grid(12);
    assert_eq!(g.len(), 12);
    for t in &g {
        assert_eq!(t.symbol, '!');
        assert_eq!(t.color, TileColor::White);
        assert_eq!(t.connections, NONE);
    }
    assert_eq!(fallback_grid(0).len(), 0);
}

#[test]
fn assignment_keeps_glyphs_and_borders() {
    let c = tile_catalog();
    let a = vec![c[2], c[1], c[4]];
    let g = tiles_from_assignment(&a);
    assert_eq!(g.len(), 3);
    assert_eq!(g[0].symbol, '╭');
    assert_eq!(g[1].symbol, '─');
    assert_eq!(g[2].connections, [false, false, true, true]);
    for t in &g {
        assert_eq!(t.color, TileColor::DarkGray);
    }
}

#[test]
fn outcome_none_gives_fallback() {
    let g = tiles_from_outcome(4, &None);
    assert_eq!(g.len(), 4);
    assert!(g.iter().all(|t| t.symbol == '!' && t.connections == NONE));
    let c = tile_catalog();
    let g = tiles_from_outcome(2, &Some(vec![c[1], c[0]]));
    assert_eq!(g[0].symbol, '─');
    assert_eq!(g[1].symbol, ' ');
}

#[test]
fn no_connections_gives_singletons() {
    let grid: Vec<BackgroundTile> = (0..6).map(|_| tile(NONE)).collect();
    let curves = find_curves(&grid, 2, 3);
    assert_eq!(curves.len(), 6);
    let mut k = 0;
    for y in 0..3 {
        for x in 0..2 {
            assert_eq!(curves[k], vec![(x, y)]);
            k += 1;
        }
    }
}

#[test]
fn two_cells_joined_form_one_curve() {
    let grid = vec![tile(RIGHT), tile(LEFT)];
    let curves = find_curves(&grid, 2, 1);
    assert_eq!(curves.len(), 1);
    assert_eq!(sorted(curves[0].clone()), vec![(0, 0), (1, 0)]);
    assert_eq!(sorted(largest_component(&grid, 2, 1)), vec![(0, 0), (1, 0)]);
}

#[test]
fn single_cell_with_all_sides_stays_inside() {
    let grid = vec![tile([true, true, true, true])];
    let curves = find_curves(&grid, 1, 1);
    assert_eq!(curves, vec![vec![(0, 0)]]);
    assert_eq!(largest_component(&grid, 1, 1), vec![(0, 0)]);
}

#[test]
fn edge_connections_do_not_leave_the_grid() {
    // top-right cell points up and right, out of the grid
    let grid = vec![tile(NONE), tile([true, true, false, false]), tile(NONE), tile(NONE)];
    let curves = find_curves(&grid, 2, 2);
    assert_eq!(curves.len(), 4);
    assert_eq!(curves[1], vec![(1, 0)]);
}

#[test]
fn tie_goes_to_first_seed() {
    let grid = vec![tile(RIGHT), tile(LEFT), tile(RIGHT), tile(LEFT)];
    let curves = find_curves(&grid, 4, 1);
    assert_eq!(curves.len(), 2);
    assert_eq!(sorted(largest_component(&grid, 4, 1)), vec![(0, 0), (1, 0)]);
}

#[test]
fn larger_later_curve_wins() {
    let grid = vec![tile(NONE), tile(RIGHT), tile(RIGHT), tile(NONE)];
    assert_eq!(sorted(largest_component(&grid, 4, 1)), vec![(1, 0), (2, 0), (3, 0)]);
}

#[test]
fn only_the_outgoing_side_is_consulted() {
    // (1,0) points left at a blank cell: the curve seeded there still takes it
    let grid = vec![tile(NONE), tile(LEFT)];
    let curves = find_curves(&grid, 2, 1);
    assert_eq!(curves.len(), 2);
    assert_eq!(curves[0], vec![(0, 0)]);
    assert_eq!(sorted(curves[1].clone()), vec![(0, 0), (1, 0)]);
    assert_eq!(sorted(largest_component(&grid, 2, 1)), vec![(0, 0), (1, 0)]);
}

#[test]
fn vertical_curve_through_rows() {
    let down = [false, false, true, false];
    let up = [true, false, false, false];
    let both = [true, false, true, false];
    let grid = vec![tile(NONE), tile(down), tile(NONE), tile(both), tile(NONE), tile(up)];
    assert_eq!(sorted(largest_component(&grid, 2, 3)), vec![(1, 0), (1, 1), (1, 2)]);
}

#[test]
fn end_to_end_horizontal_between_blanks() {
    let c = tile_catalog();
    let panel = BackgroundPanel::new(3, 1, Some(vec![c[0], c[1], c[0]]));
    assert_eq!(panel.width(), 3);
    assert_eq!(panel.height(), 1);
    assert_eq!(panel.tile(0, 0).symbol, ' ');
    assert_eq!(panel.tile(1, 0).symbol, '─');
    assert_eq!(panel.tile(2, 0).symbol, ' ');
    // the horizontal tile reaches both blanks, so all three cells are highlighted
    for x in 0..3 {
        assert_eq!(panel.tile(x, 0).color, TileColor::Gray);
    }
}

#[test]
fn highlight_leaves_other_cells_neutral() {
    let c = tile_catalog();
    // ╭ ╮ over ╰ ╯ closes a loop of four cells; the third column stays blank
    let a = vec![c[2], c[4], c[0], c[5], c[3], c[0]];
    let grid = generate_grid(3, 2, &Some(a));
    let colors: Vec<TileColor> = grid.iter().map(|t| t.color).collect();
    assert_eq!(
        colors,
        vec![TileColor::Gray, TileColor::Gray, TileColor::DarkGray, TileColor::Gray, TileColor::Gray, TileColor::DarkGray]
    );
}

#[test]
fn infeasible_outcome_gives_error_panel() {
    let panel = BackgroundPanel::new(2, 2, None);
    for y in 0..2 {
        for x in 0..2 {
            let t = panel.tile(x, y);
            assert_eq!(t.symbol, '!');
            assert_eq!(t.connections, NONE);
        }
    }
    // every curve is a single cell: the first one is highlighted
    assert_eq!(panel.tile(0, 0).color, TileColor::Gray);
    assert_eq!(panel.tile(1, 0).color, TileColor::White);
    assert_eq!(panel.tile(0, 1).color, TileColor::White);
    assert_eq!(panel.tile(1, 1).color, TileColor::White);
}

#[test]
fn regenerate_replaces_grid_and_keeps_size() {
    let c = tile_catalog();
    let mut panel = BackgroundPanel::new(2, 1, None);
    panel.regenerate(Some(vec![c[1], c[1]]));
    assert_eq!(panel.width(), 2);
    assert_eq!(panel.height(), 1);
    assert_eq!(panel.tile(0, 0).symbol, '─');
    assert_eq!(panel.tile(1, 0).color, TileColor::Gray);
}

#[test]
fn draw_clips_to_view_and_grid() {
    let c = tile_catalog();
    let panel = BackgroundPanel::new(3, 2, Some(vec![c[2], c[1], c[4], c[5], c[1], c[3]]));
    let cells = panel.draw(2, 5);
    assert_eq!(cells.len(), 4);
    let coords: Vec<(usize, usize)> = cells.iter().map(|d| (d.x, d.y)).collect();
    assert_eq!(coords, vec![(0, 0), (1, 0), (0, 1), (1, 1)]);
    assert_eq!(cells[0].symbol, '╭');
    assert_eq!(cells[3].symbol, '─');
    assert_eq!(panel.draw(10, 10).len(), 6);
    assert_eq!(panel.draw(0, 10).len(), 0);
}

#[test]
fn consistent_grid_is_partitioned() {
    let c = tile_catalog();
    let a = vec![c[2], c[4], c[0], c[5], c[3], c[0]];
    let grid = tiles_from_assignment(&a);
    let curves = find_curves(&grid, 3, 2);
    assert_eq!(curves.len(), 3);
    assert_eq!(sorted(curves[0].clone()), vec![(0, 0), (0, 1), (1, 0), (1, 1)]);
    assert_eq!(curves[1], vec![(2, 0)]);
    assert_eq!(curves[2], vec![(2, 1)]);
    let mut all: Vec<Pos> = curves.concat();
    all.sort();
    assert_eq!(all, vec![(0, 0), (0, 1), (1, 0), (1, 1), (2, 0), (2, 1)]);
}
