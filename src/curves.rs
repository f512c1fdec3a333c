//! Connected curves of a tile grid: each cell leads to the neighbours its
//! own connection mask points at, and a curve is every cell reachable from a
//! seed.
use vstd::prelude::*;
use crate::tiles::BackgroundTile;

verus! {

broadcast use vstd::seq_lib::lemma_seq_contains_after_push;

/// A grid position `(x, y)`.
pub type Pos = (usize, usize);

/// Row-major index of a position in a grid `w` cells wide.
pub open spec fn idx(w: int, c: Pos) -> int {
    c.1 * w + c.0
}

pub open spec fn in_grid(w: int, h: int, c: Pos) -> bool {
    c.0 < w && c.1 < h
}

/// Whether the cell at `c` has a curve segment on `side` (top, right,
/// bottom, left).
pub open spec fn conn(g: Seq<[bool; 4]>, w: int, c: Pos, side: int) -> bool {
    g[idx(w, c)][side]
}

/// The connection masks of a grid's cells.
pub open spec fn masks(grid: Seq<BackgroundTile>) -> Seq<[bool; 4]> {
    grid.map_values(|t: BackgroundTile| t.connections)
}

/// One step of a traversal: from `a` to an adjacent cell `b` inside the
/// grid, across a side of `a` that carries a connection. Only `a`'s mask is
/// consulted.
pub open spec fn step(g: Seq<[bool; 4]>, w: int, h: int, a: Pos, b: Pos) -> bool {
    &&& in_grid(w, h, a)
    &&& in_grid(w, h, b)
    &&& {
        ||| conn(g, w, a, 0) && b.0 == a.0 && b.1 + 1 == a.1
        ||| conn(g, w, a, 1) && b.0 == a.0 + 1 && b.1 == a.1
        ||| conn(g, w, a, 2) && b.0 == a.0 && b.1 == a.1 + 1
        ||| conn(g, w, a, 3) && b.0 + 1 == a.0 && b.1 == a.1
    }
}

/// A sequence of positions, each a step from the one before it.
pub open spec fn is_walk(g: Seq<[bool; 4]>, w: int, h: int, p: Seq<Pos>) -> bool {
    &&& p.len() > 0
    &&& in_grid(w, h, p[0])
    &&& forall|i: int| 0 <= i < p.len() - 1 ==> #[trigger] step(g, w, h, p[i], p[i + 1])
}

pub open spec fn reachable(g: Seq<[bool; 4]>, w: int, h: int, s: Pos, t: Pos) -> bool {
    exists|p: Seq<Pos>| #[trigger] is_walk(g, w, h, p) && p[0] == s && p.last() == t
}

/// The curve grown from `s`: every position reachable from it.
pub open spec fn curve_from(g: Seq<[bool; 4]>, w: int, h: int, s: Pos) -> Set<Pos> {
    Set::new(|t: Pos| reachable(g, w, h, s, t))
}

/// Connections agree between neighbours: every step can be taken back.
pub open spec fn symmetric(g: Seq<[bool; 4]>, w: int, h: int) -> bool {
    forall|a: Pos, b: Pos| #[trigger] step(g, w, h, a, b) ==> step(g, w, h, b, a)
}

/// The position with row-major index `k`.
pub open spec fn pos_at(w: int, k: int) -> Pos {
    ((k % w) as usize, (k / w) as usize)
}

pub open spec fn covered(cs: Seq<Set<Pos>>, c: Pos) -> bool {
    exists|j: int| 0 <= j < cs.len() && #[trigger] cs[j].contains(c)
}

/// The curves seeded by the first `k` cells in row-major order: a cell that
/// no earlier curve holds seeds a new one.
pub open spec fn curves_upto(g: Seq<[bool; 4]>, w: int, h: int, k: nat) -> Seq<Set<Pos>>
    decreases k,
{
    if k == 0 {
        seq![]
    } else {
        let prev = curves_upto(g, w, h, (k - 1) as nat);
        let c = pos_at(w, k - 1);
        if covered(prev, c) {
            prev
        } else {
            prev.push(curve_from(g, w, h, c))
        }
    }
}

/// All curves of the grid, in the order of their seeds.
pub open spec fn all_curves(g: Seq<[bool; 4]>, w: int, h: int) -> Seq<Set<Pos>> {
    curves_upto(g, w, h, (w * h) as nat)
}

/// `i` is the first of the largest sets of `cs`.
pub open spec fn is_first_largest(cs: Seq<Set<Pos>>, i: int) -> bool {
    &&& 0 <= i < cs.len()
    &&& forall|j: int| 0 <= j < cs.len() ==> #[trigger] cs[j].len() <= cs[i].len()
    &&& forall|j: int| 0 <= j < i ==> #[trigger] cs[j].len() < cs[i].len()
}

pub proof fn lemma_reach_refl(g: Seq<[bool; 4]>, w: int, h: int, s: Pos)
    requires
        in_grid(w, h, s),
    ensures
        reachable(g, w, h, s, s),
{
    let p = seq![s];
    assert(is_walk(g, w, h, p));
}

pub proof fn lemma_reach_step(g: Seq<[bool; 4]>, w: int, h: int, s: Pos, c: Pos, d: Pos)
    requires
        reachable(g, w, h, s, c),
        step(g, w, h, c, d),
    ensures
        reachable(g, w, h, s, d),
{
    let p = choose|p: Seq<Pos>| #[trigger] is_walk(g, w, h, p) && p[0] == s && p.last() == c;
    let q = p.push(d);
    assert forall|i: int| 0 <= i < q.len() - 1 implies #[trigger] step(g, w, h, q[i], q[i + 1]) by {
        if i < p.len() - 1 {
            assert(step(g, w, h, p[i], p[i + 1]));
        }
    }
    assert(is_walk(g, w, h, q));
}

pub proof fn lemma_reach_trans(g: Seq<[bool; 4]>, w: int, h: int, a: Pos, b: Pos, c: Pos)
    requires
        reachable(g, w, h, a, b),
        reachable(g, w, h, b, c),
    ensures
        reachable(g, w, h, a, c),
{
    let q = choose|q: Seq<Pos>| #[trigger] is_walk(g, w, h, q) && q[0] == b && q.last() == c;
    lemma_reach_trans_walk(g, w, h, a, q);
}

proof fn lemma_reach_trans_walk(g: Seq<[bool; 4]>, w: int, h: int, a: Pos, q: Seq<Pos>)
    requires
        is_walk(g, w, h, q),
        reachable(g, w, h, a, q[0]),
    ensures
        reachable(g, w, h, a, q.last()),
    decreases q.len(),
{
    if q.len() > 1 {
        let r = q.drop_last();
        assert(is_walk(g, w, h, r)) by {
            assert forall|i: int| 0 <= i < r.len() - 1 implies #[trigger] step(g, w, h, r[i], r[i + 1]) by {
                assert(step(g, w, h, q[i], q[i + 1]));
            }
        }
        lemma_reach_trans_walk(g, w, h, a, r);
        let j = q.len() - 2;
        assert(step(g, w, h, q[j], q[j + 1]));
        lemma_reach_step(g, w, h, a, r.last(), q.last());
    }
}

/// Under agreeing connections, reachability runs both ways.
pub proof fn lemma_reach_symm(g: Seq<[bool; 4]>, w: int, h: int, a: Pos, b: Pos)
    requires
        symmetric(g, w, h),
        reachable(g, w, h, a, b),
    ensures
        reachable(g, w, h, b, a),
{
    let p = choose|p: Seq<Pos>| #[trigger] is_walk(g, w, h, p) && p[0] == a && p.last() == b;
    lemma_reach_symm_walk(g, w, h, p);
}

proof fn lemma_reach_symm_walk(g: Seq<[bool; 4]>, w: int, h: int, p: Seq<Pos>)
    requires
        symmetric(g, w, h),
        is_walk(g, w, h, p),
    ensures
        reachable(g, w, h, p.last(), p[0]),
    decreases p.len(),
{
    if p.len() == 1 {
        lemma_reach_refl(g, w, h, p[0]);
    } else {
        let r = p.drop_last();
        assert(is_walk(g, w, h, r)) by {
            assert forall|i: int| 0 <= i < r.len() - 1 implies #[trigger] step(g, w, h, r[i], r[i + 1]) by {
                assert(step(g, w, h, p[i], p[i + 1]));
            }
        }
        lemma_reach_symm_walk(g, w, h, r);
        let j = p.len() - 2;
        let m = p[j];
        assert(step(g, w, h, p[j], p[j + 1]));
        assert(step(g, w, h, p.last(), m));
        lemma_reach_refl(g, w, h, p.last());
        lemma_reach_step(g, w, h, p.last(), p.last(), m);
        lemma_reach_trans(g, w, h, p.last(), m, p[0]);
    }
}

/// A set that holds `s` and is closed under steps holds all of `s`'s curve.
pub proof fn lemma_closed_holds_curve(g: Seq<[bool; 4]>, w: int, h: int, s: Pos, t: Pos, set: Set<Pos>)
    requires
        set.contains(s),
        forall|a: Pos, b: Pos| set.contains(a) && #[trigger] step(g, w, h, a, b) ==> set.contains(b),
        reachable(g, w, h, s, t),
    ensures
        set.contains(t),
{
    let p = choose|p: Seq<Pos>| #[trigger] is_walk(g, w, h, p) && p[0] == s && p.last() == t;
    assert forall|i: int| 0 <= i < p.len() implies set.contains(#[trigger] p[i]) by {
        lemma_walk_in_closed(g, w, h, p, set, i);
    }
}

proof fn lemma_walk_in_closed(g: Seq<[bool; 4]>, w: int, h: int, p: Seq<Pos>, set: Set<Pos>, i: int)
    requires
        is_walk(g, w, h, p),
        set.contains(p[0]),
        forall|a: Pos, b: Pos| set.contains(a) && #[trigger] step(g, w, h, a, b) ==> set.contains(b),
        0 <= i < p.len(),
    ensures
        set.contains(p[i]),
    decreases i,
{
    if i > 0 {
        lemma_walk_in_closed(g, w, h, p, set, i - 1);
        let j = i - 1;
        assert(step(g, w, h, p[j], p[j + 1]));
    }
}


/// How many entries of `s` differ from `label`.
spec fn count_unmarked(s: Seq<usize>, label: usize) -> nat
    decreases s.len(),
{
    if s.len() == 0 {
        0
    } else {
        count_unmarked(s.drop_last(), label) + if s.last() != label { 1nat } else { 0nat }
    }
}

proof fn lemma_count_mark(s: Seq<usize>, label: usize, i: int)
    requires
        0 <= i < s.len(),
        s[i] != label,
    ensures
        count_unmarked(s.update(i, label), label) + 1 == count_unmarked(s, label),
    decreases s.len(),
{
    let t = s.update(i, label);
    if i == s.len() - 1 {
        assert(t.drop_last() =~= s.drop_last());
    } else {
        lemma_count_mark(s.drop_last(), label, i);
        assert(t.drop_last() =~= s.drop_last().update(i, label));
    }
}

/// Index bounds of a position inside a grid.
pub(crate) proof fn lemma_idx_bounds(w: int, h: int, c: Pos)
    requires
        w > 0,
        h > 0,
        in_grid(w, h, c),
    ensures
        0 <= idx(w, c) < w * h,
        c.1 * w <= w * h - w,
{
    let y = c.1 as int;
    assert(y * w <= (h - 1) * w) by (nonlinear_arith)
        requires
            0 <= y <= h - 1,
            w > 0,
    ;
    assert((h - 1) * w == w * h - w) by (nonlinear_arith);
    assert(0 <= y * w) by (nonlinear_arith)
        requires
            0 <= y,
            w > 0,
    ;
}

/// Distinct positions of a grid have distinct indices.
pub(crate) proof fn lemma_idx_injective(w: int, h: int, a: Pos, b: Pos)
    requires
        w > 0,
        in_grid(w, h, a),
        in_grid(w, h, b),
        idx(w, a) == idx(w, b),
    ensures
        a == b,
{
    let ya = a.1 as int;
    let yb = b.1 as int;
    let xa = a.0 as int;
    let xb = b.0 as int;
    if ya < yb {
        assert(ya * w + w <= yb * w) by (nonlinear_arith)
            requires
                ya < yb,
                w > 0,
        ;
    } else if yb < ya {
        assert(yb * w + w <= ya * w) by (nonlinear_arith)
            requires
                yb < ya,
                w > 0,
        ;
    }
}

/// Index of the neighbours of a position, in terms of its own.
proof fn lemma_idx_neighbours(w: int, c: Pos)
    requires
        c.0 < usize::MAX,
        c.1 < usize::MAX,
    ensures
        idx(w, ((c.0 + 1) as usize, c.1)) == idx(w, c) + 1,
        c.0 > 0 ==> idx(w, ((c.0 - 1) as usize, c.1)) == idx(w, c) - 1,
        idx(w, (c.0, (c.1 + 1) as usize)) == idx(w, c) + w,
        c.1 > 0 ==> idx(w, (c.0, (c.1 - 1) as usize)) == idx(w, c) - w,
{
    let y = c.1 as int;
    assert((y + 1) * w == y * w + w) by (nonlinear_arith);
    assert((y - 1) * w == y * w - w) by (nonlinear_arith);
}

/// Grows the curve of `seed` with a work stack, marking each of its cells in
/// `curve_of` with `label`.
fn explore(
    grid: &Vec<BackgroundTile>,
    width: usize,
    height: usize,
    seed: Pos,
    curve_of: &mut Vec<usize>,
    label: usize,
) -> (curve: Vec<Pos>)
    requires
        width > 0,
        height > 0,
        grid.len() == width * height,
        old(curve_of).len() == grid.len(),
        in_grid(width as int, height as int, seed),
        forall|i: int| 0 <= i < old(curve_of).len() ==> old(curve_of)[i] != label,
    ensures
        final(curve_of).len() == old(curve_of).len(),
        forall|i: int|
            0 <= i < final(curve_of).len() ==> #[trigger] final(curve_of)[i] == label || final(curve_of)[i]
                == old(curve_of)[i],
        forall|c: Pos|
            in_grid(width as int, height as int, c) ==> (#[trigger] final(curve_of)[idx(width as int, c)]
                == label) == curve@.contains(c),
        curve@.no_duplicates(),
        forall|j: int| 0 <= j < curve.len() ==> in_grid(width as int, height as int, #[trigger] curve[j]),
        curve@.to_set() == curve_from(masks(grid@), width as int, height as int, seed),
{
    let ghost g = masks(grid@);
    let ghost w = width as int;
    let ghost h = height as int;
    let ghost start = curve_of@;
    let mut curve: Vec<Pos> = Vec::new();
    let mut stack: Vec<Pos> = vec![seed];
    proof {
        lemma_reach_refl(g, w, h, seed);
        assert forall|c: Pos| in_grid(w, h, c) implies #[trigger] curve_of[idx(w, c)] != label by {
            lemma_idx_bounds(w, h, c);
        }
    }
    while stack.len() > 0
        invariant
            g == masks(grid@),
            w == width,
            h == height,
            width > 0,
            height > 0,
            grid.len() == width * height,
            curve_of.len() == grid.len(),
            start.len() == grid.len(),
            in_grid(w, h, seed),
            forall|i: int| 0 <= i < start.len() ==> start[i] != label,
            forall|i: int|
                0 <= i < curve_of.len() ==> #[trigger] curve_of[i] == label || curve_of[i] == start[i],
            forall|c: Pos| in_grid(w, h, c) ==> (#[trigger] curve_of[idx(w, c)] == label) == curve@.contains(c),
            curve@.no_duplicates(),
            forall|j: int|
                0 <= j < curve.len() ==> in_grid(w, h, #[trigger] curve[j]) && reachable(g, w, h, seed, curve[j]),
            forall|j: int|
                0 <= j < stack.len() ==> in_grid(w, h, #[trigger] stack[j]) && reachable(g, w, h, seed, stack[j]),
            curve@.contains(seed) || stack@.contains(seed),
            forall|a: Pos, b: Pos|
                curve@.contains(a) && #[trigger] step(g, w, h, a, b) ==> curve@.contains(b) || stack@.contains(b),
        decreases count_unmarked(curve_of@, label) * 5 + stack.len(),
    {
        let ghost stack0 = stack@;
        let ghost curve0 = curve@;
        let c = stack.pop().unwrap();
        assert(stack0 == stack@.push(c));
        assert(stack0.last() == c);
        let (x, y) = c;
        proof {
            lemma_idx_bounds(w, h, c);
            lemma_idx_neighbours(w, c);
        }
        let index = y * width + x;
        if curve_of[index] != label {
            proof {
                lemma_count_mark(curve_of@, label, index as int);
            }
            curve.push(c);
            curve_of.set(index, label);
            assert forall|d: Pos| in_grid(w, h, d) implies (#[trigger] curve_of[idx(w, d)] == label)
                == curve@.contains(d) by {
                lemma_idx_bounds(w, h, d);
                if d != c {
                    if idx(w, d) == idx(w, c) {
                        lemma_idx_injective(w, h, d, c);
                    }
                    assert(curve@.contains(d) == curve0.contains(d));
                }
            }
            proof {
                lemma_idx_bounds(w, h, c);
            }
            if grid[index].connections[0] && y > 0 {
                let nb: Pos = (x, y - 1);
                if curve_of[index - width] != label {
                    proof { lemma_reach_step(g, w, h, seed, c, nb); }
                    stack.push(nb);
                }
            }
            if grid[index].connections[1] && x < width - 1 {
                let nb: Pos = (x + 1, y);
                if curve_of[index + 1] != label {
                    proof { lemma_reach_step(g, w, h, seed, c, nb); }
                    stack.push(nb);
                }
            }
            if grid[index].connections[2] && y < height - 1 {
                let nb: Pos = (x, y + 1);
                proof { lemma_idx_bounds(w, h, nb); }
                if curve_of[index + width] != label {
                    proof { lemma_reach_step(g, w, h, seed, c, nb); }
                    stack.push(nb);
                }
            }
            if grid[index].connections[3] && x > 0 {
                let nb: Pos = (x - 1, y);
                if curve_of[index - 1] != label {
                    proof { lemma_reach_step(g, w, h, seed, c, nb); }
                    stack.push(nb);
                }
            }
            assert forall|a: Pos, b: Pos|
                curve@.contains(a) && #[trigger] step(g, w, h, a, b) implies curve@.contains(b) || stack@.contains(b) by {
                if a != c {
                    assert(curve0.contains(a));
                    if !curve@.contains(b) {
                        assert(stack0.contains(b));
                        assert(b != c);
                        let k = choose|k: int| 0 <= k < stack0.len() && stack0[k] == b;
                        assert(stack@.contains(b)) by {
                            assert(stack@[k] == b);
                        }
                    }
                } else if !curve@.contains(b) {
                    lemma_idx_bounds(w, h, b);
                }
            }
            assert(curve@.no_duplicates()) by {
                assert(!curve0.contains(c));
            }
        } else {
            assert forall|a: Pos, b: Pos|
                curve@.contains(a) && #[trigger] step(g, w, h, a, b) implies curve@.contains(b) || stack@.contains(b) by {
                if !curve@.contains(b) {
                    assert(stack0.contains(b));
                    let k = choose|k: int| 0 <= k < stack0.len() && stack0[k] == b;
                    assert(k != stack0.len() - 1);
                    assert(stack@[k] == b);
                }
            }
        }
    }
    proof {
        assert forall|t: Pos| curve_from(g, w, h, seed).contains(t) implies curve@.to_set().contains(t) by {
            lemma_closed_holds_curve(g, w, h, seed, t, curve@.to_set());
        }
        assert forall|t: Pos| curve@.to_set().contains(t) implies curve_from(g, w, h, seed).contains(t) by {
            let j = choose|j: int| 0 <= j < curve.len() && curve[j] == t;
            assert(reachable(g, w, h, seed, curve[j]));
        }
        assert(curve@.to_set() =~= curve_from(g, w, h, seed));
    }
    curve
}


proof fn lemma_curves_upto_len(g: Seq<[bool; 4]>, w: int, h: int, k: nat)
    ensures
        curves_upto(g, w, h, k).len() <= k,
        k >= 1 ==> curves_upto(g, w, h, k).len() >= 1,
    decreases k,
{
    if k > 0 {
        lemma_curves_upto_len(g, w, h, (k - 1) as nat);
    }
}

/// The position with index `k`, for `k` inside the grid.
proof fn lemma_pos_at(w: int, h: int, k: int)
    requires
        w > 0,
        w <= usize::MAX,
        h <= usize::MAX,
        0 <= k < w * h,
    ensures
        in_grid(w, h, pos_at(w, k)),
        idx(w, pos_at(w, k)) == k,
        pos_at(w, k).0 == k % w,
        pos_at(w, k).1 == k / w,
{
    vstd::arithmetic::div_mod::lemma_fundamental_div_mod(k, w);
    assert(0 <= k % w < w) by {
        vstd::arithmetic::div_mod::lemma_mod_bound(k, w);
    }
    assert(0 <= k / w < h) by {
        vstd::arithmetic::div_mod::lemma_div_pos_is_pos(k, w);
        if k / w >= h {
            assert(w * (k / w) >= w * h) by (nonlinear_arith)
                requires
                    k / w >= h,
                    w > 0,
            ;
        }
    }
    assert(w * (k / w) == (k / w) * w) by (nonlinear_arith);
}

/// Every curve of the grid, in the row-major order of its seed cell: each
/// cell that no earlier curve holds seeds the curve of the cells reachable
/// from it.
pub fn find_curves(grid: &Vec<BackgroundTile>, width: usize, height: usize) -> (curves: Vec<Vec<Pos>>)
    requires
        width > 0,
        height > 0,
        grid.len() == width * height,
    ensures
        curves.len() == all_curves(masks(grid@), width as int, height as int).len(),
        forall|j: int|
            0 <= j < curves.len() ==> (#[trigger] curves[j])@.no_duplicates() && curves[j]@.to_set()
                == all_curves(masks(grid@), width as int, height as int)[j],
        forall|j: int, m: int|
            0 <= j < curves.len() && 0 <= m < curves[j].len() ==> in_grid(
                width as int,
                height as int,
                #[trigger] curves[j][m],
            ),
{
    let ghost g = masks(grid@);
    let ghost w = width as int;
    let ghost h = height as int;
    let n = grid.len();
    let mut curves: Vec<Vec<Pos>> = Vec::new();
    let mut curve_of: Vec<usize> = vec![0usize; n];
    let mut i: usize = 0;
    proof {
        assert forall|c: Pos| in_grid(w, h, c) implies (#[trigger] curve_of[idx(w, c)] != 0) == covered(
            curves_upto(g, w, h, 0),
            c,
        ) by {
            lemma_idx_bounds(w, h, c);
        }
    }
    while i < n
        invariant
            g == masks(grid@),
            w == width,
            h == height,
            width > 0,
            height > 0,
            n == grid.len(),
            grid.len() == width * height,
            i <= n,
            curve_of.len() == n,
            curves.len() == curves_upto(g, w, h, i as nat).len(),
            curves.len() <= i,
            forall|j: int|
                0 <= j < curves.len() ==> (#[trigger] curves[j])@.no_duplicates() && curves[j]@.to_set()
                    == curves_upto(g, w, h, i as nat)[j],
            forall|k: int| 0 <= k < n ==> #[trigger] curve_of[k] <= curves.len(),
            forall|j: int, m: int|
                0 <= j < curves.len() && 0 <= m < curves[j].len() ==> in_grid(w, h, #[trigger] curves[j][m]),
            forall|c: Pos|
                in_grid(w, h, c) ==> (#[trigger] curve_of[idx(w, c)] != 0) == covered(
                    curves_upto(g, w, h, i as nat),
                    c,
                ),
        decreases n - i,
    {
        let ghost prev = curves_upto(g, w, h, i as nat);
        let x = i % width;
        let y = i / width;
        proof {
            lemma_pos_at(w, h, i as int);
            lemma_curves_upto_len(g, w, h, (i + 1) as nat);
        }
        let seed: Pos = (x, y);
        assert(seed == pos_at(w, i as int));
        if curve_of[i] == 0 {
            let ghost before = curve_of@;
            let label = curves.len() + 1;
            let curve = explore(grid, width, height, seed, &mut curve_of, label);
            let ghost next = prev.push(curve_from(g, w, h, seed));
            assert(curves_upto(g, w, h, (i + 1) as nat) == next);
            assert forall|c: Pos| in_grid(w, h, c) implies (#[trigger] curve_of[idx(w, c)] != 0) == covered(
                next,
                c,
            ) by {
                lemma_idx_bounds(w, h, c);
                if curve@.contains(c) {
                    assert(curve@.to_set().contains(c));
                    assert(next[prev.len() as int].contains(c));
                } else {
                    assert(curve_of[idx(w, c)] == before[idx(w, c)]);
                    if covered(prev, c) {
                        let j = choose|j: int| 0 <= j < prev.len() && #[trigger] prev[j].contains(c);
                        assert(next[j].contains(c));
                    }
                    if covered(next, c) {
                        let j = choose|j: int| 0 <= j < next.len() && #[trigger] next[j].contains(c);
                        if j == prev.len() {
                            assert(curve@.to_set().contains(c));
                        } else {
                            assert(prev[j].contains(c));
                        }
                    }
                }
            }
            curves.push(curve);
        } else {
            assert(curves_upto(g, w, h, (i + 1) as nat) == prev);
        }
        i = i + 1;
    }
    curves
}

/// Index of the first of the longest curves.
fn first_largest(curves: &Vec<Vec<Pos>>) -> (r: usize)
    requires
        curves.len() > 0,
    ensures
        r < curves.len(),
        forall|j: int| 0 <= j < curves.len() ==> (#[trigger] curves[j]).len() <= curves[r as int].len(),
        forall|j: int| 0 <= j < r ==> (#[trigger] curves[j]).len() < curves[r as int].len(),
{
    let mut best: usize = 0;
    let mut j: usize = 1;
    while j < curves.len()
        invariant
            curves.len() > 0,
            best < j <= curves.len(),
            forall|k: int| 0 <= k < j ==> (#[trigger] curves[k]).len() <= curves[best as int].len(),
            forall|k: int| 0 <= k < best ==> (#[trigger] curves[k]).len() < curves[best as int].len(),
        decreases curves.len() - j,
    {
        if curves[j].len() > curves[best].len() {
            best = j;
        }
        j = j + 1;
    }
    best
}

/// The largest curve of the grid; where several are largest, the one whose
/// seed comes first in row-major order.
pub fn largest_component(grid: &Vec<BackgroundTile>, width: usize, height: usize) -> (r: Vec<Pos>)
    requires
        width > 0,
        height > 0,
        grid.len() == width * height,
    ensures
        r@.no_duplicates(),
        forall|j: int| 0 <= j < r.len() ==> in_grid(width as int, height as int, #[trigger] r[j]),
        exists|k: int|
            is_first_largest(all_curves(masks(grid@), width as int, height as int), k) && r@.to_set()
                == #[trigger] all_curves(masks(grid@), width as int, height as int)[k],
{
    let ghost cs = all_curves(masks(grid@), width as int, height as int);
    let mut curves = find_curves(grid, width, height);
    proof {
        assert(width * height >= 1) by (nonlinear_arith)
            requires
                width > 0,
                height > 0,
        ;
        lemma_curves_upto_len(masks(grid@), width as int, height as int, (width * height) as nat);
        assert forall|j: int| 0 <= j < curves.len() implies (#[trigger] curves[j]).len() == cs[j].len() by {
            assert(curves[j]@.no_duplicates());
            curves[j]@.unique_seq_to_set();
        }
    }
    let k = first_largest(&curves);
    assert(is_first_largest(cs, k as int)) by {
        assert forall|j: int| 0 <= j < cs.len() implies #[trigger] cs[j].len() <= cs[k as int].len() by {
            assert(curves@[j].len() == cs[j].len());
        }
        assert forall|j: int| 0 <= j < k implies #[trigger] cs[j].len() < cs[k as int].len() by {
            assert(curves@[j].len() == cs[j].len());
        }
    }
    assert(forall|m: int| 0 <= m < curves[k as int].len() ==> in_grid(width as int, height as int, #[trigger] curves[k as int][m]));
    curves.swap_remove(k)
}


proof fn lemma_curves_upto_prefix(g: Seq<[bool; 4]>, w: int, h: int, k: nat, m: nat)
    requires
        k <= m,
    ensures
        curves_upto(g, w, h, k).len() <= curves_upto(g, w, h, m).len(),
        forall|j: int|
            0 <= j < curves_upto(g, w, h, k).len() ==> #[trigger] curves_upto(g, w, h, k)[j] == curves_upto(
                g,
                w,
                h,
                m,
            )[j],
    decreases m,
{
    if k < m {
        lemma_curves_upto_prefix(g, w, h, k, (m - 1) as nat);
    }
}

proof fn lemma_curves_upto_cover(g: Seq<[bool; 4]>, w: int, h: int, k: nat)
    requires
        w > 0,
        w <= usize::MAX,
        h <= usize::MAX,
        k <= w * h,
    ensures
        forall|m: int| 0 <= m < k ==> covered(curves_upto(g, w, h, k), #[trigger] pos_at(w, m)),
    decreases k,
{
    if k > 0 {
        let prev = curves_upto(g, w, h, (k - 1) as nat);
        let cur = curves_upto(g, w, h, k);
        lemma_curves_upto_cover(g, w, h, (k - 1) as nat);
        lemma_curves_upto_prefix(g, w, h, (k - 1) as nat, k);
        assert forall|m: int| 0 <= m < k implies covered(cur, #[trigger] pos_at(w, m)) by {
            let c = pos_at(w, m);
            if m < k - 1 {
                let j = choose|j: int| 0 <= j < prev.len() && #[trigger] prev[j].contains(c);
                assert(cur[j] == prev[j]);
            } else if !covered(prev, c) {
                lemma_pos_at(w, h, m);
                lemma_reach_refl(g, w, h, c);
                assert(cur[prev.len() as int].contains(c));
            }
        }
    }
}

/// Every cell of the grid lies in some curve.
pub proof fn lemma_curves_cover(g: Seq<[bool; 4]>, w: usize, h: usize)
    requires
        w > 0,
        h > 0,
        g.len() == w * h,
    ensures
        forall|c: Pos| in_grid(w as int, h as int, c) ==> #[trigger] covered(all_curves(g, w as int, h as int), c),
{
    lemma_curves_upto_cover(g, w as int, h as int, (w * h) as nat);
    assert forall|c: Pos| in_grid(w as int, h as int, c) implies #[trigger] covered(
        all_curves(g, w as int, h as int),
        c,
    ) by {
        let m = idx(w as int, c);
        lemma_idx_bounds(w as int, h as int, c);
        lemma_pos_at(w as int, h as int, m);
        lemma_idx_injective(w as int, h as int, c, pos_at(w as int, m));
    }
}

proof fn lemma_curves_upto_disjoint(g: Seq<[bool; 4]>, w: int, h: int, k: nat)
    requires
        symmetric(g, w, h),
    ensures
        forall|i: int, j: int, c: Pos|
            0 <= i < j < curves_upto(g, w, h, k).len() && #[trigger] curves_upto(g, w, h, k)[i].contains(c)
                ==> !#[trigger] curves_upto(g, w, h, k)[j].contains(c),
        forall|j: int, a: Pos, b: Pos|
            0 <= j < curves_upto(g, w, h, k).len() && #[trigger] curves_upto(g, w, h, k)[j].contains(a)
                && #[trigger] reachable(g, w, h, a, b) ==> curves_upto(g, w, h, k)[j].contains(b),
    decreases k,
{
    if k > 0 {
        let prev = curves_upto(g, w, h, (k - 1) as nat);
        let cur = curves_upto(g, w, h, k);
        let s = pos_at(w, k - 1);
        lemma_curves_upto_disjoint(g, w, h, (k - 1) as nat);
        if !covered(prev, s) {
            let fresh = curve_from(g, w, h, s);
            assert(cur == prev.push(fresh));
            assert forall|j: int, a: Pos, b: Pos|
                0 <= j < cur.len() && #[trigger] cur[j].contains(a) && #[trigger] reachable(g, w, h, a, b)
                    implies cur[j].contains(b) by {
                if j == prev.len() {
                    lemma_reach_trans(g, w, h, s, a, b);
                } else {
                    assert(cur[j] == prev[j]);
                }
            }
            assert forall|i: int, j: int, c: Pos|
                0 <= i < j < cur.len() && #[trigger] cur[i].contains(c) implies !#[trigger] cur[j].contains(c) by {
                if j < prev.len() {
                    assert(cur[i] == prev[i] && cur[j] == prev[j]);
                } else if cur[j].contains(c) {
                    assert(cur[i] == prev[i]);
                    lemma_reach_symm(g, w, h, s, c);
                    assert(prev[i].contains(s));
                }
            }
        }
    }
}

/// Where connections agree between neighbours, no cell lies in two curves.
pub proof fn lemma_curves_disjoint(g: Seq<[bool; 4]>, w: usize, h: usize)
    requires
        w > 0,
        h > 0,
        g.len() == w * h,
        symmetric(g, w as int, h as int),
    ensures
        forall|i: int, j: int, c: Pos|
            0 <= i < all_curves(g, w as int, h as int).len() && 0 <= j < all_curves(g, w as int, h as int).len()
                && i != j && #[trigger] all_curves(g, w as int, h as int)[i].contains(c) ==> !#[trigger] all_curves(
                g,
                w as int,
                h as int,
            )[j].contains(c),
{
    lemma_curves_upto_disjoint(g, w as int, h as int, (w * h) as nat);
}

/// In a grid without any connection, each cell is a curve of its own, in
/// row-major order.
pub proof fn lemma_no_connections_singletons(g: Seq<[bool; 4]>, w: usize, h: usize)
    requires
        w > 0,
        h > 0,
        g.len() == w * h,
        forall|i: int| 0 <= i < g.len() ==> (#[trigger] g[i])@ == seq![false, false, false, false],
    ensures
        all_curves(g, w as int, h as int).len() == w * h,
        forall|j: int|
            0 <= j < w * h ==> #[trigger] all_curves(g, w as int, h as int)[j] == set![pos_at(w as int, j)]
                && all_curves(g, w as int, h as int)[j].len() == 1,
{
    let wi = w as int;
    let hi = h as int;
    assert forall|a: Pos, b: Pos| !#[trigger] step(g, wi, hi, a, b) by {
        if in_grid(wi, hi, a) {
            lemma_idx_bounds(wi, hi, a);
            let m = g[idx(wi, a)];
            assert(m@[0] == m[0] && m@[1] == m[1] && m@[2] == m[2] && m@[3] == m[3]);
        }
    }
    lemma_singletons_upto(g, wi, hi, (w * h) as nat);
    assert forall|j: int| 0 <= j < w * h implies #[trigger] all_curves(g, wi, hi)[j] == set![pos_at(wi, j)]
        && all_curves(g, wi, hi)[j].len() == 1 by {
        assert(set![pos_at(wi, j)].len() == 1);
    }
}

proof fn lemma_singletons_upto(g: Seq<[bool; 4]>, w: int, h: int, k: nat)
    requires
        w > 0,
        w <= usize::MAX,
        h <= usize::MAX,
        k <= w * h,
        forall|a: Pos, b: Pos| !#[trigger] step(g, w, h, a, b),
    ensures
        curves_upto(g, w, h, k).len() == k,
        forall|j: int| 0 <= j < k ==> #[trigger] curves_upto(g, w, h, k)[j] == set![pos_at(w, j)],
    decreases k,
{
    if k > 0 {
        let prev = curves_upto(g, w, h, (k - 1) as nat);
        let s = pos_at(w, k - 1);
        lemma_singletons_upto(g, w, h, (k - 1) as nat);
        lemma_pos_at(w, h, k - 1);
        if covered(prev, s) {
            let j = choose|j: int| 0 <= j < prev.len() && #[trigger] prev[j].contains(s);
            assert(prev[j] == set![pos_at(w, j)]);
            lemma_pos_at(w, h, j);
        }
        assert forall|t: Pos| curve_from(g, w, h, s).contains(t) <==> t == s by {
            if t == s {
                lemma_reach_refl(g, w, h, s);
            }
            if reachable(g, w, h, s, t) {
                let p = choose|p: Seq<Pos>| #[trigger] is_walk(g, w, h, p) && p[0] == s && p.last() == t;
                if p.len() > 1 {
                    let z: int = 0;
                    assert(step(g, w, h, p[z], p[z + 1]));
                }
            }
        }
        assert(curve_from(g, w, h, s) =~= set![s]);
    }
}

} // verus!
