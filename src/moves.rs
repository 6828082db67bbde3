//! The draught move generator.

use vstd::prelude::*;
use crate::grid::{Cell, CellSet};
use crate::logic::{CheckersMoveType, GameLogic, Turn, BOARD_SIZE};
use crate::territory::{cells_of, on_lattice, territory};

verus! {

/// A move: its target, its kind and the captured cell (`(0, 0)` for a
/// regular move).
pub type Move = (Cell, CheckersMoveType, Cell);

/// The unit direction of candidate `k`: candidates 0 to 7 are the regular
/// steps, 8 to 15 the jumps, each group in its own fixed order of the eight
/// directions (up is `j + 1`).
pub open spec fn heading(k: int) -> (int, int) {
    if k == 0 || k == 8 {
        (0, 1)
    } else if k == 1 || k == 9 {
        (0, -1)
    } else if k == 2 || k == 10 {
        (-1, 0)
    } else if k == 3 || k == 11 {
        (1, 0)
    } else if k == 4 || k == 13 {
        (-1, 1)
    } else if k == 5 || k == 12 {
        (1, 1)
    } else if k == 6 || k == 15 {
        (-1, -1)
    } else {
        (1, -1)
    }
}

/// The cell `(i, j)` on the board.
pub open spec fn on_board(i: int, j: int) -> bool {
    0 <= i < 19 && 0 <= j < 19
}

/// `cells` lists the cell `(i, j)`.
pub open spec fn lists(cells: Seq<Cell>, i: int, j: int) -> bool {
    i >= 0 && j >= 0 && cells.contains((i as usize, j as usize))
}

/// A target that the opposing stones next to the draught at `(x, y)` rule
/// out. A stone `(a, b)` stands at the corner shared by the squares `(a, b)`
/// and `(a + 1, b + 1)`.
pub open spec fn ruled_out(stones: Seq<Cell>, x: int, y: int, ti: int, tj: int) -> bool {
    let t = (ti, tj);
    ||| lists(stones, x, y - 1) && lists(stones, x - 1, y - 1) && (t == (x + 1, y - 1) || t == (
        x,
        y - 1,
    ) || t == (x - 1, y - 1))
    ||| lists(stones, x, y) && lists(stones, x - 1, y) && (t == (x - 1, y + 1) || t == (x, y + 1)
        || t == (x + 1, y + 1))
    ||| lists(stones, x - 1, y - 1) && lists(stones, x - 1, y) && (t == (x - 1, y - 1) || t == (
        x - 1,
        y,
    ) || t == (x - 1, y + 1))
    ||| lists(stones, x, y) && lists(stones, x, y - 1) && (t == (x + 1, y - 1) || t == (x + 1, y)
        || t == (x + 1, y + 1))
    ||| lists(stones, x, y - 1) && t == (x + 1, y - 1)
    ||| lists(stones, x - 1, y - 1) && t == (x - 1, y - 1)
    ||| lists(stones, x - 1, y) && t == (x - 1, y + 1)
    ||| lists(stones, x, y) && t == (x + 1, y + 1)
}

/// The target of candidate `k` from `d`.
pub open spec fn target_of(d: Cell, k: int) -> (int, int) {
    let s = if k < 8 {
        1int
    } else {
        2int
    };
    (d.0 + s * heading(k).0, d.1 + s * heading(k).1)
}

/// The cell that candidate `k` from `d` jumps over.
pub open spec fn middle_of(d: Cell, k: int) -> (int, int) {
    (d.0 + heading(k).0, d.1 + heading(k).1)
}

/// Candidate `k` from `d` is a legal move: the target is a free board cell
/// outside `blocked`; a jump goes over an opposing draught on a cell outside
/// `blocked`; and no opposing stone next to `d` rules the target out.
pub open spec fn offered(
    d: Cell,
    k: int,
    ours: Seq<Cell>,
    theirs: Seq<Cell>,
    stones: Seq<Cell>,
    blocked: Set<Cell>,
) -> bool {
    let t = target_of(d, k);
    let m = middle_of(d, k);
    &&& on_board(t.0, t.1)
    &&& !lists(ours, t.0, t.1)
    &&& !lists(theirs, t.0, t.1)
    &&& !blocked.contains((t.0 as usize, t.1 as usize))
    &&& k >= 8 ==> lists(theirs, m.0, m.1) && !blocked.contains((m.0 as usize, m.1 as usize))
    &&& !ruled_out(stones, d.0 as int, d.1 as int, t.0, t.1)
}

/// Candidate `k` from `d` as a move.
pub open spec fn as_move(d: Cell, k: int) -> Move {
    let t = target_of(d, k);
    let m = middle_of(d, k);
    if k < 8 {
        ((t.0 as usize, t.1 as usize), CheckersMoveType::Regular, (0usize, 0usize))
    } else {
        ((t.0 as usize, t.1 as usize), CheckersMoveType::DraughtTakeOver, (m.0 as usize, m.1 as usize))
    }
}

/// The legal moves among the first `n` candidates, in candidate order.
pub open spec fn listing(
    d: Cell,
    n: int,
    ours: Seq<Cell>,
    theirs: Seq<Cell>,
    stones: Seq<Cell>,
    blocked: Set<Cell>,
) -> Seq<Move>
    decreases n,
{
    if n <= 0 {
        seq![]
    } else {
        let prev = listing(d, n - 1, ours, theirs, stones, blocked);
        if offered(d, n - 1, ours, theirs, stones, blocked) {
            prev.push(as_move(d, n - 1))
        } else {
            prev
        }
    }
}

/// The union of a side's territory regions.
pub open spec fn territory_union(stones: Set<Cell>) -> Set<Cell> {
    Set::new(|c: Cell| exists|k: int| 0 <= k < territory(stones).len() && #[trigger] territory(stones)[k].contains(c))
}

/// Whether `cells` lists `(i, j)`.
pub fn lists_cell(cells: &Vec<Cell>, i: usize, j: usize) -> (r: bool)
    ensures
        r == cells@.contains((i, j)),
{
    let mut k: usize = 0;
    while k < cells.len()
        invariant
            k <= cells.len(),
            forall|m: int| 0 <= m < k ==> cells@[m] != (i, j),
        decreases cells.len() - k,
    {
        if cells[k].0 == i && cells[k].1 == j {
            return true;
        }
        k = k + 1;
    }
    false
}

/// A copy of a list of cells.
pub fn copy_cells(cells: &Vec<Cell>) -> (r: Vec<Cell>)
    ensures
        r@ == cells@,
{
    let mut r: Vec<Cell> = Vec::new();
    let mut k: usize = 0;
    while k < cells.len()
        invariant
            k <= cells.len(),
            r@ == cells@.take(k as int),
        decreases cells.len() - k,
    {
        r.push(cells[k]);
        k = k + 1;
        proof {
            assert(r@ =~= cells@.take(k as int));
        }
    }
    proof {
        assert(cells@.take(cells@.len() as int) =~= cells@);
    }
    r
}

/// `lists` on a cell given by an offset from `(x, y)`.
fn lists_at(cells: &Vec<Cell>, x: usize, y: usize, dx: i8, dy: i8) -> (r: bool)
    requires
        x < 19,
        y < 19,
        -2 <= dx <= 2,
        -2 <= dy <= 2,
    ensures
        r == lists(cells@, x + dx, y + dy),
{
    if (x as i64) + (dx as i64) < 0 || (y as i64) + (dy as i64) < 0 {
        return false;
    }
    let i = ((x as i64) + (dx as i64)) as usize;
    let j = ((y as i64) + (dy as i64)) as usize;
    lists_cell(cells, i, j)
}

fn ruled_out_exec(stones: &Vec<Cell>, x: usize, y: usize, ti: i64, tj: i64) -> (r: bool)
    requires
        x < 19,
        y < 19,
    ensures
        r == ruled_out(stones@, x as int, y as int, ti as int, tj as int),
{
    let (xi, yi) = (x as i64, y as i64);
    let at = |a: i64, b: i64| -> (r: bool)
        ensures
            r == (ti == a && tj == b),
        { ti == a && tj == b };
    let s_down = lists_at(stones, x, y, 0, -1);
    let s_down_left = lists_at(stones, x, y, -1, -1);
    let s_here = lists_at(stones, x, y, 0, 0);
    let s_left = lists_at(stones, x, y, -1, 0);
    (s_down && s_down_left && (at(xi + 1, yi - 1) || at(xi, yi - 1) || at(xi - 1, yi - 1))) || (
    s_here && s_left && (at(xi - 1, yi + 1) || at(xi, yi + 1) || at(xi + 1, yi + 1))) || (
    s_down_left && s_left && (at(xi - 1, yi - 1) || at(xi - 1, yi) || at(xi - 1, yi + 1))) || (
    s_here && s_down && (at(xi + 1, yi - 1) || at(xi + 1, yi) || at(xi + 1, yi + 1))) || (s_down
        && at(xi + 1, yi - 1)) || (s_down_left && at(xi - 1, yi - 1)) || (s_left && at(xi - 1, yi
        + 1)) || (s_here && at(xi + 1, yi + 1))
}

fn heading_exec(k: usize) -> (r: (i8, i8))
    requires
        k < 16,
    ensures
        r.0 as int == heading(k as int).0,
        r.1 as int == heading(k as int).1,
{
    if k == 0 || k == 8 {
        (0, 1)
    } else if k == 1 || k == 9 {
        (0, -1)
    } else if k == 2 || k == 10 {
        (-1, 0)
    } else if k == 3 || k == 11 {
        (1, 0)
    } else if k == 4 || k == 13 {
        (-1, 1)
    } else if k == 5 || k == 12 {
        (1, 1)
    } else if k == 6 || k == 15 {
        (-1, -1)
    } else {
        (1, -1)
    }
}

/// The legal moves of the draught on `draught`, given its side's draughts
/// `ours`, the opposing draughts `theirs` and stones `stones`, and the
/// cells `blocked` that the draught may not enter.
pub fn draught_targets(
    draught: Cell,
    ours: &Vec<Cell>,
    theirs: &Vec<Cell>,
    stones: &Vec<Cell>,
    blocked: &Vec<Cell>,
) -> (r: (Vec<Cell>, Vec<CheckersMoveType>, Vec<Cell>))
    requires
        draught.0 < 19,
        draught.1 < 19,
    ensures
        ({
            let l = listing(draught, 16, ours@, theirs@, stones@, blocked@.to_set());
            &&& r.0@.len() == l.len()
            &&& r.1@.len() == l.len()
            &&& r.2@.len() == l.len()
            &&& forall|k: int| 0 <= k < l.len() ==> (r.0@[k], r.1@[k], r.2@[k]) == #[trigger] l[k]
        }),
{
    let bl = CellSet::from_cells(blocked);
    let ghost bset = blocked@.to_set();
    let (x, y) = draught;
    let mut targets: Vec<Cell> = Vec::new();
    let mut kinds: Vec<CheckersMoveType> = Vec::new();
    let mut taken: Vec<Cell> = Vec::new();
    let mut k: usize = 0;
    while k < 16
        invariant
            k <= 16,
            x < 19,
            y < 19,
            draught == (x, y),
            bl.wf(),
            bl@ == bset.filter(|c: Cell| crate::grid::in_span(c)),
            bset == blocked@.to_set(),
            ({
                let l = listing(draught, k as int, ours@, theirs@, stones@, bset);
                &&& targets@.len() == l.len()
                &&& kinds@.len() == l.len()
                &&& taken@.len() == l.len()
                &&& forall|m: int| 0 <= m < l.len() ==> (targets@[m], kinds@[m], taken@[m]) == #[trigger] l[m]
            }),
        decreases 16 - k,
    {
        let (hi, hj) = heading_exec(k);
        let (si, sj): (i64, i64) = if k < 8 {
            (hi as i64, hj as i64)
        } else {
            (2 * hi as i64, 2 * hj as i64)
        };
        let ti = x as i64 + si;
        let tj = y as i64 + sj;
        let mi = x as i64 + hi as i64;
        let mj = y as i64 + hj as i64;
        let ghost l = listing(draught, k as int, ours@, theirs@, stones@, bset);
        if 0 <= ti && ti < BOARD_SIZE as i64 && 0 <= tj && tj < BOARD_SIZE as i64 {
            let t: Cell = (ti as usize, tj as usize);
            let free = !lists_cell(ours, t.0, t.1) && !lists_cell(theirs, t.0, t.1)
                && !bl.contains(t.0, t.1);
            let jumps = k < 8 || (mi >= 0 && mj >= 0 && lists_cell(theirs, mi as usize, mj as usize)
                && !bl.contains(mi as usize, mj as usize));
            if free && jumps && !ruled_out_exec(stones, x, y, ti, tj) {
                proof {
                    assert(target_of(draught, k as int) == (ti as int, tj as int));
                    assert(bset.contains(t) == bl@.contains(t));
                    if k >= 8 {
                        let mc: Cell = (mi as usize, mj as usize);
                        assert(bset.contains(mc) == bl@.contains(mc));
                    }
                    assert(offered(draught, k as int, ours@, theirs@, stones@, bset));
                }
                targets.push(t);
                if k < 8 {
                    kinds.push(CheckersMoveType::Regular);
                    taken.push((0, 0));
                } else {
                    kinds.push(CheckersMoveType::DraughtTakeOver);
                    taken.push((mi as usize, mj as usize));
                }
                proof {
                    let l2 = listing(draught, k as int + 1, ours@, theirs@, stones@, bset);
                    assert(l2 == l.push(as_move(draught, k as int)));
                    assert forall|m: int| 0 <= m < l2.len() implies (targets@[m], kinds@[m], taken@[m]) == #[trigger] l2[m] by {
                        if m < l.len() {
                            assert((targets@[m], kinds@[m], taken@[m]) == l[m]);
                        }
                    }
                }
            } else {
                proof {
                    assert(target_of(draught, k as int) == (ti as int, tj as int));
                    assert(bset.contains(t) == bl@.contains(t));
                    if k >= 8 && mi >= 0 && mj >= 0 {
                        let mc: Cell = (mi as usize, mj as usize);
                        assert(bset.contains(mc) == bl@.contains(mc));
                    }
                    assert(!offered(draught, k as int, ours@, theirs@, stones@, bset));
                }
            }
        } else {
            proof {
                assert(!offered(draught, k as int, ours@, theirs@, stones@, bset));
            }
        }
        k = k + 1;
    }
    (targets, kinds, taken)
}

/// The target of `mv` is two cells from `d` along one of the eight
/// directions, and the captured cell lies between them.
pub open spec fn jump_shape(d: Cell, mv: Move) -> bool {
    let dx = mv.2.0 as int - d.0 as int;
    let dy = mv.2.1 as int - d.1 as int;
    &&& -1 <= dx <= 1 && -1 <= dy <= 1 && (dx != 0 || dy != 0)
    &&& mv.0.0 as int - d.0 as int == 2 * dx
    &&& mv.0.1 as int - d.1 as int == 2 * dy
}

/// What holds of every listed move: its target is on the board, free of
/// draughts and outside `blocked`; a capture jumps an opposing draught.
pub proof fn lemma_listing_facts(
    d: Cell,
    n: int,
    ours: Seq<Cell>,
    theirs: Seq<Cell>,
    stones: Seq<Cell>,
    blocked: Set<Cell>,
)
    requires
        d.0 < 19,
        d.1 < 19,
        n <= 16,
    ensures
        forall|m: int|
            0 <= m < listing(d, n, ours, theirs, stones, blocked).len() ==> {
                let mv = #[trigger] listing(d, n, ours, theirs, stones, blocked)[m];
                &&& mv.0.0 < 19 && mv.0.1 < 19
                &&& !ours.contains(mv.0)
                &&& !theirs.contains(mv.0)
                &&& !blocked.contains(mv.0)
                &&& mv.1 != CheckersMoveType::TowerTakeOver
                &&& mv.1 == CheckersMoveType::DraughtTakeOver ==> theirs.contains(mv.2) && jump_shape(d, mv)
                    && !blocked.contains(mv.2)
            },
    decreases n,
{
    if n > 0 {
        lemma_listing_facts(d, n - 1, ours, theirs, stones, blocked);
        let k = n - 1;
        if offered(d, k, ours, theirs, stones, blocked) {
            let mv = as_move(d, k);
            if k >= 8 {
                assert(jump_shape(d, mv));
            }
        }
    }
}

/// The legal moves of the draught on `draught` of the side to move `turn`,
/// given both sides' draughts and stones.
pub open spec fn draught_listing(
    turn: Turn,
    draught: Cell,
    black_draughts: Seq<Cell>,
    white_draughts: Seq<Cell>,
    white_stones: Seq<Cell>,
    black_stones: Seq<Cell>,
) -> Seq<Move> {
    match turn {
        Turn::Black => listing(
            draught,
            16,
            black_draughts,
            white_draughts,
            white_stones,
            territory_union(cells_of(white_stones)),
        ),
        Turn::White => listing(
            draught,
            16,
            white_draughts,
            black_draughts,
            black_stones,
            territory_union(cells_of(black_stones)),
        ),
    }
}

/// The cells of all of `regions`.
pub(crate) fn flatten_regions(regions: &Vec<Vec<Cell>>, sets: Ghost<Seq<Set<Cell>>>) -> (r: Vec<Cell>)
    requires
        regions@.len() == sets@.len(),
        forall|k: int| 0 <= k < regions@.len() ==> (#[trigger] regions@[k])@.to_set() == sets@[k],
    ensures
        forall|c: Cell| #[trigger] r@.contains(c) <==> exists|k: int| 0 <= k < sets@.len() && #[trigger] sets@[k].contains(c),
        r@.to_set() == Set::new(|c: Cell| exists|k: int| 0 <= k < sets@.len() && #[trigger] sets@[k].contains(c)),
{
        let mut blocked: Vec<Cell> = Vec::new();
        let mut m: usize = 0;
        while m < regions.len()
            invariant
                m <= regions.len(),
                regions@.len() == sets@.len(),
                forall|k: int| 0 <= k < regions@.len() ==> (#[trigger] regions@[k])@.to_set() == sets@[k],
                forall|c: Cell| #[trigger] blocked@.contains(c) <==> exists|k: int| 0 <= k < m && #[trigger] sets@[k].contains(c),
            decreases regions.len() - m,
        {
            let region = &regions[m];
            let ghost before = blocked@;
            let mut q: usize = 0;
            while q < region.len()
                invariant
                    q <= region.len(),
                    m < regions@.len(),
                    *region == regions@[m as int],
                    forall|c: Cell| #[trigger] blocked@.contains(c) <==> before.contains(c) || region@.take(q as int).contains(c),
                decreases region.len() - q,
            {
                let ghost b2 = blocked@;
                blocked.push(region[q]);
                proof {
                    assert(region@.take(q as int + 1) =~= region@.take(q as int).push(region@[q as int]));
                    assert forall|c: Cell| #[trigger] blocked@.contains(c) <==> b2.contains(c) || c == region@[q as int] by {
                        if blocked@.contains(c) {
                            let w = choose|w: int| 0 <= w < blocked@.len() && blocked@[w] == c;
                            if w < b2.len() {
                                assert(b2[w] == c);
                            }
                        }
                        if b2.contains(c) {
                            let w = choose|w: int| 0 <= w < b2.len() && b2[w] == c;
                            assert(blocked@[w] == c);
                        }
                        if c == region@[q as int] {
                            assert(blocked@[b2.len() as int] == c);
                        }
                    }
                    let t1 = region@.take(q as int);
                    let t2 = region@.take(q as int + 1);
                    assert forall|c: Cell| t2.contains(c) <==> t1.contains(c) || c == region@[q as int] by {
                        if t2.contains(c) {
                            let w = choose|w: int| 0 <= w < t2.len() && t2[w] == c;
                            if w < t1.len() {
                                assert(t1[w] == c);
                            }
                        }
                        if t1.contains(c) {
                            let w = choose|w: int| 0 <= w < t1.len() && t1[w] == c;
                            assert(t2[w] == c);
                        }
                        if c == region@[q as int] {
                            assert(t2[q as int] == c);
                        }
                    }
                }
                q = q + 1;
            }
            proof {
                assert(region@.take(region@.len() as int) =~= region@);
                assert forall|c: Cell| #[trigger] blocked@.contains(c) <==> exists|k: int| 0 <= k < m + 1 && #[trigger] sets@[k].contains(c) by {
                    if blocked@.contains(c) && !before.contains(c) {
                        assert(region@.to_set().contains(c));
                        assert(sets@[m as int].contains(c));
                    }
                    if exists|k: int| 0 <= k < m + 1 && #[trigger] sets@[k].contains(c) {
                        let k = choose|k: int| 0 <= k < m + 1 && #[trigger] sets@[k].contains(c);
                        if k == m {
                            assert(regions@[m as int]@.to_set().contains(c));
                        }
                    }
                }
            }
            m = m + 1;
        }
        proof {
            assert(m == sets@.len());
            assert(blocked@.to_set() =~= Set::new(|c: Cell| exists|k: int| 0 <= k < sets@.len() && #[trigger] sets@[k].contains(c)));
        }
        blocked
}

impl GameLogic {
    /// The legal moves of the draught on `draught` of the side to move:
    /// the targets, their kinds and the captured cells, in candidate order,
    /// and the annihilation set of the opposing side. The opposing side's
    /// territory may not be entered or jumped over.
    pub fn legal_draught_moves(
        &self,
        turn: Turn,
        draught: Cell,
        black_draughts: Vec<Cell>,
        white_draughts: Vec<Cell>,
        white_stones: Vec<Cell>,
        black_stones: Vec<Cell>,
        white_tower: Cell,
        black_tower: Cell,
    ) -> (r: (Vec<Cell>, Vec<CheckersMoveType>, Vec<Cell>, Vec<Cell>))
        requires
            draught.0 < 19,
            draught.1 < 19,
            turn == Turn::Black ==> forall|k: int| 0 <= k < white_stones@.len() ==> on_lattice(#[trigger] white_stones@[k]),
            turn == Turn::White ==> forall|k: int| 0 <= k < black_stones@.len() ==> on_lattice(#[trigger] black_stones@[k]),
        ensures
            ({
                let (ours, theirs, their_stones) = match turn {
                    Turn::Black => (black_draughts@, white_draughts@, white_stones@),
                    Turn::White => (white_draughts@, black_draughts@, black_stones@),
                };
                let blocked = territory_union(cells_of(their_stones));
                let l = draught_listing(
                    turn,
                    draught,
                    black_draughts@,
                    white_draughts@,
                    white_stones@,
                    black_stones@,
                );
                &&& r.0@.len() == l.len()
                &&& r.1@.len() == l.len()
                &&& r.2@.len() == l.len()
                &&& forall|k: int| 0 <= k < l.len() ==> (r.0@[k], r.1@[k], r.2@[k]) == #[trigger] l[k]
                &&& r.3@.to_set() == crate::territory::annihilation(cells_of(their_stones))
                &&& forall|k: int| 0 <= k < r.0@.len() ==> {
                    &&& !black_draughts@.contains(#[trigger] r.0@[k])
                    &&& !white_draughts@.contains(r.0@[k])
                    &&& !blocked.contains(r.0@[k])
                    &&& r.1@[k] == CheckersMoveType::DraughtTakeOver ==> theirs.contains(r.2@[k])
                        && jump_shape(draught, (r.0@[k], r.1@[k], r.2@[k])) && !blocked.contains(r.2@[k])
                }
            }),
    {
        let ghost bd = black_draughts@;
        let ghost wd = white_draughts@;
        let ghost ws = white_stones@;
        let ghost bs = black_stones@;
        let (ours, theirs, their_stones) = match turn {
            Turn::Black => (black_draughts, white_draughts, copy_cells(&white_stones)),
            Turn::White => (white_draughts, black_draughts, copy_cells(&black_stones)),
        };
        let (regions, removals) = self.legal_go_moves(
            crate::logic::opposite(turn),
            Vec::new(),
            Vec::new(),
            white_stones,
            black_stones,
            white_tower,
            black_tower,
        );
        let ghost theirs_set = match turn {
            Turn::Black => cells_of(ws),
            Turn::White => cells_of(bs),
        };
        let blocked = flatten_regions(&regions, Ghost(territory(theirs_set)));
        proof {
            assert(blocked@.to_set() =~= territory_union(theirs_set));
        }
        let (targets, kinds, taken) = draught_targets(draught, &ours, &theirs, &their_stones, &blocked);
        proof {
            lemma_listing_facts(draught, 16, ours@, theirs@, their_stones@, blocked@.to_set());
            let l = listing(draught, 16, ours@, theirs@, their_stones@, blocked@.to_set());
            let their_seq = match turn {
                Turn::Black => ws,
                Turn::White => bs,
            };
            assert(their_stones@ == their_seq);
            assert(cells_of(their_seq) == theirs_set);
            assert(removals@.to_set() == crate::territory::annihilation(theirs_set));
            assert(blocked@.to_set() == territory_union(theirs_set));
            assert forall|k: int| 0 <= k < targets@.len() implies {
                &&& !bd.contains(#[trigger] targets@[k])
                &&& !wd.contains(targets@[k])
                &&& !territory_union(theirs_set).contains(targets@[k])
                &&& kinds@[k] == CheckersMoveType::DraughtTakeOver ==> theirs@.contains(taken@[k])
                    && jump_shape(draught, (targets@[k], kinds@[k], taken@[k]))
                    && !territory_union(theirs_set).contains(taken@[k])
            } by {
                assert(l[k] == (targets@[k], kinds@[k], taken@[k]));
            }
        }
        (targets, kinds, taken, removals)
    }
}

} // verus!
