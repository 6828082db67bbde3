//! The game: the pieces on the board, the turn protocol, and the actions
//! that the players take.

use vstd::prelude::*;
use crate::grid::{Cell, CellSet, in_span};
use crate::moves::{flatten_regions, territory_union};
use crate::territory::{
    annihilation, cells_of, lemma_region_cells_in_span, on_lattice, territory, territory_cells,
};
use crate::logic::{
    CheckersMoveType, Draught, GameLogic, GamePhase, Side, Stone, Turn, other, side_of, side_spec,
    transition,
};

verus! {

/// A side's watchtower; losing it loses the game.
#[derive(Clone, Copy, PartialEq, Eq, Debug, Structural)]
pub struct Watchtower {
    pub i: usize,
    pub j: usize,
    pub side: Side,
}

/// The ordinal of the draught chosen for the next move, if any.
#[derive(Clone, Copy, PartialEq, Eq, Debug, Structural)]
pub struct SelectedDraught {
    pub n: Option<i8>,
}

/// Why an action was refused. A refused action changes nothing.
#[derive(Clone, Copy, PartialEq, Eq, Debug, Structural)]
pub enum GameError {
    /// The target is not among the legal moves of the draught.
    IllegalMove,
    /// The watchtower or stone may not stand there.
    InvalidPlacement,
    /// No draught is selected, or the selected one is gone.
    MissingEntity,
    /// A side has no watchtower where the action needs both.
    InvariantViolation,
    /// The action does not belong to the current phase.
    WrongPhase,
}

/// The state of a game.
pub struct Game {
    pub draughts: Vec<Draught>,
    pub stones: Vec<Stone>,
    pub watchtowers: Vec<Watchtower>,
    pub phase: GamePhase,
    pub turn: Turn,
    pub logic: GameLogic,
    pub selected: SelectedDraught,
    pub winner: Option<Side>,
}

/// The opposing side.
pub open spec fn rival(side: Side) -> Side {
    match side {
        Side::Black => Side::White,
        Side::White => Side::Black,
    }
}

/// The cells of the draughts of `side`, in list order.
pub open spec fn draught_cells(ds: Seq<Draught>, side: Side) -> Seq<Cell>
    decreases ds.len(),
{
    if ds.len() == 0 {
        seq![]
    } else {
        let rest = draught_cells(ds.drop_last(), side);
        if ds.last().side == side {
            rest.push((ds.last().i, ds.last().j))
        } else {
            rest
        }
    }
}

/// The cells of the stones of `side`, in list order.
pub open spec fn stone_cells(ss: Seq<Stone>, side: Side) -> Seq<Cell>
    decreases ss.len(),
{
    if ss.len() == 0 {
        seq![]
    } else {
        let rest = stone_cells(ss.drop_last(), side);
        if ss.last().side == side {
            rest.push((ss.last().i, ss.last().j))
        } else {
            rest
        }
    }
}

/// The number of watchtowers of `side`.
pub open spec fn tower_count(ts: Seq<Watchtower>, side: Side) -> int
    decreases ts.len(),
{
    if ts.len() == 0 {
        0
    } else {
        tower_count(ts.drop_last(), side) + if ts.last().side == side {
            1int
        } else {
            0int
        }
    }
}

/// `a` is the first index of a watchtower of `side`.
pub open spec fn first_tower(ts: Seq<Watchtower>, side: Side, a: int) -> bool {
    &&& 0 <= a < ts.len()
    &&& ts[a].side == side
    &&& forall|m: int| 0 <= m < a ==> (#[trigger] ts[m]).side != side
}

/// `a` is the first index of a draught of `side` with ordinal `n`.
pub open spec fn first_draught(ds: Seq<Draught>, side: Side, n: i8, a: int) -> bool {
    &&& 0 <= a < ds.len()
    &&& ds[a].side == side && ds[a].n == n
    &&& forall|m: int| 0 <= m < a ==> !((#[trigger] ds[m]).side == side && ds[m].n == n)
}

/// A watchtower may stand on `(i, j)`: at least three cells from every
/// board edge, and at least five cells (in straight-line distance) from the
/// opposing watchtower `rival_at`, if there is one.
pub open spec fn site_ok(i: int, j: int, rival_at: Option<Cell>) -> bool {
    &&& 3 <= i <= 15 && 3 <= j <= 15
    &&& match rival_at {
        Some(c) => (i - c.0) * (i - c.0) + (j - c.1) * (j - c.1) >= 25,
        None => true,
    }
}

/// The cell of the first watchtower of `side`, if any.
pub open spec fn tower_at(ts: Seq<Watchtower>, side: Side) -> Option<Cell> {
    if exists|a: int| first_tower(ts, side, a) {
        let a = choose|a: int| first_tower(ts, side, a);
        Some((ts[a].i, ts[a].j))
    } else {
        None
    }
}

/// The offset of stone `k` of the ring laid around a new watchtower.
pub open spec fn ring_offset(k: int) -> (int, int) {
    if k == 0 {
        (1, 1)
    } else if k == 1 {
        (1, 0)
    } else if k == 2 {
        (1, -1)
    } else if k == 3 {
        (1, -2)
    } else if k == 4 {
        (0, 1)
    } else if k == 5 {
        (0, -2)
    } else if k == 6 {
        (-1, 1)
    } else if k == 7 {
        (-1, -2)
    } else if k == 8 {
        (-2, 1)
    } else if k == 9 {
        (-2, 0)
    } else if k == 10 {
        (-2, -1)
    } else {
        (-2, -2)
    }
}

/// The twelve stones laid around a watchtower confirmed on `(i, j)`.
pub open spec fn ring_stones(i: usize, j: usize, side: Side) -> Seq<Stone> {
    Seq::new(
        12,
        |k: int|
            Stone {
                i: (i + ring_offset(k).0) as usize,
                j: (j + ring_offset(k).1) as usize,
                side,
            },
    )
}

/// The eight draughts around a watchtower confirmed on `(i, j)`: ordinals 0
/// to 8 without 4, ordinal `n` at offset `(n / 3 - 1, n % 3 - 1)`.
pub open spec fn guard_draughts(i: usize, j: usize, side: Side) -> Seq<Draught> {
    Seq::new(
        8,
        |k: int|
            {
                let n = if k < 4 {
                    k
                } else {
                    k + 1
                };
                Draught {
                    i: (i + n / 3 - 1) as usize,
                    j: (j + n % 3 - 1) as usize,
                    n: n as i8,
                    side,
                }
            },
    )
}

/// The phase after the termination check: outside the set-up phases, a side
/// without watchtowers ends the game.
pub open spec fn settled_phase(phase: GamePhase, ts: Seq<Watchtower>) -> GamePhase {
    if phase != GamePhase::Initialize && phase != GamePhase::PlaceWatchtower && (tower_count(
        ts,
        Side::White,
    ) == 0 || tower_count(ts, Side::Black) == 0) {
        GamePhase::GameOver
    } else {
        phase
    }
}

/// The winner after the termination check. When both sides lost their
/// watchtowers, White is reported.
pub open spec fn settled_winner(phase: GamePhase, ts: Seq<Watchtower>, winner: Option<Side>) -> Option<Side> {
    if settled_phase(phase, ts) == GamePhase::GameOver && phase != GamePhase::GameOver {
        if tower_count(ts, Side::Black) == 0 {
            Some(Side::White)
        } else {
            Some(Side::Black)
        }
    } else {
        winner
    }
}

impl Game {
    /// Stones stand on intersections and draughts on squares.
    pub open spec fn wf(&self) -> bool {
        &&& forall|k: int| 0 <= k < self.stones@.len() ==> (#[trigger] self.stones@[k]).i < 18
            && self.stones@[k].j < 18
        &&& forall|k: int| 0 <= k < self.draughts@.len() ==> (#[trigger] self.draughts@[k]).i < 19
            && self.draughts@[k].j < 19
    }

    /// A new game on an empty board, before set-up; White acts first.
    pub fn new() -> (r: Game)
        ensures
            r.wf(),
            r.draughts@.len() == 0,
            r.stones@.len() == 0,
            r.watchtowers@.len() == 0,
            r.phase == GamePhase::Initialize,
            r.turn == Turn::White,
            r.logic@.len() == 0,
            r.selected.n.is_none(),
            r.winner.is_none(),
    {
        Game {
            draughts: Vec::new(),
            stones: Vec::new(),
            watchtowers: Vec::new(),
            phase: GamePhase::Initialize,
            turn: Turn::White,
            logic: GameLogic::new(),
            selected: SelectedDraught { n: None },
            winner: None,
        }
    }

    /// Sets the board up: the game enters watchtower placement.
    pub fn start(&mut self) -> (r: Result<(), GameError>)
        ensures
            old(self).phase == GamePhase::Initialize ==> (r == Ok::<(), GameError>(())) && (
            *final(self) == (Game { phase: GamePhase::PlaceWatchtower, ..*old(self) })),
            old(self).phase != GamePhase::Initialize ==> (r == Err::<(), GameError>(
                GameError::WrongPhase,
            )) && *final(self) == *old(self),
    {
        if self.phase != GamePhase::Initialize {
            return Err(GameError::WrongPhase);
        }
        self.phase = GamePhase::PlaceWatchtower;
        Ok(())
    }
}

fn ring_offset_exec(k: usize) -> (r: (i8, i8))
    requires
        k < 12,
    ensures
        r.0 as int == ring_offset(k as int).0,
        r.1 as int == ring_offset(k as int).1,
{
    if k == 0 {
        (1, 1)
    } else if k == 1 {
        (1, 0)
    } else if k == 2 {
        (1, -1)
    } else if k == 3 {
        (1, -2)
    } else if k == 4 {
        (0, 1)
    } else if k == 5 {
        (0, -2)
    } else if k == 6 {
        (-1, 1)
    } else if k == 7 {
        (-1, -2)
    } else if k == 8 {
        (-2, 1)
    } else if k == 9 {
        (-2, 0)
    } else if k == 10 {
        (-2, -1)
    } else {
        (-2, -2)
    }
}

impl Game {
    /// Whether the side to act may confirm its watchtower on `(i, j)`.
    pub fn watchtower_site_ok(&self, i: usize, j: usize) -> (r: bool)
        ensures
            r == site_ok(i as int, j as int, tower_at(self.watchtowers@, rival(side_spec(self.turn)))),
    {
        if i < 3 || i > 15 || j < 3 || j > 15 {
            return false;
        }
        let opponent = match side_of(self.turn) {
            Side::Black => Side::White,
            Side::White => Side::Black,
        };
        match find_tower(&self.watchtowers, opponent) {
            Some(c) => {
                let di = if i >= c.0 { i - c.0 } else { c.0 - i };
                let dj = if j >= c.1 { j - c.1 } else { c.1 - j };
                proof {
                    let (a, b) = (i as int - c.0 as int, j as int - c.1 as int);
                    assert(a * a == di * di) by (nonlinear_arith)
                        requires di as int == a || di as int == -a;
                    assert(b * b == dj * dj) by (nonlinear_arith)
                        requires dj as int == b || dj as int == -b;
                    if di >= 5 {
                        assert(di * di >= 25) by (nonlinear_arith)
                            requires di >= 5;
                        assert(dj * dj >= 0) by (nonlinear_arith);
                    }
                    if dj >= 5 {
                        assert(dj * dj >= 25) by (nonlinear_arith)
                            requires dj >= 5;
                        assert(di * di >= 0) by (nonlinear_arith);
                    }
                }
                if di >= 5 || dj >= 5 {
                    return true;
                }
                proof {
                    assert(di * di <= 16) by (nonlinear_arith)
                        requires di < 5;
                    assert(dj * dj <= 16) by (nonlinear_arith)
                        requires dj < 5;
                }
                di * di + dj * dj >= 25
            },
            None => true,
        }
    }

    /// Logs the action of phase `done`, moves to the next state and runs the
    /// termination check.
    fn finish_action(&mut self, done: GamePhase)
        ensures
            final(self).logic@ == old(self).logic@.push((done, old(self).turn)),
            final(self).turn == transition(done, old(self).turn).1,
            final(self).phase == settled_phase(transition(done, old(self).turn).0, old(self).watchtowers@),
            final(self).winner == settled_winner(
                transition(done, old(self).turn).0,
                old(self).watchtowers@,
                old(self).winner,
            ),
            final(self).draughts == old(self).draughts,
            final(self).stones == old(self).stones,
            final(self).watchtowers == old(self).watchtowers,
            final(self).selected == old(self).selected,
    {
        self.logic.log(done, self.turn);
        let (phase, turn) = self.logic.next_state();
        self.phase = phase;
        self.turn = turn;
        self.check_game_termination();
    }

    /// The termination check: outside the set-up phases, a side without a
    /// watchtower ends the game, and the other side wins (White where both
    /// lost theirs).
    pub fn check_game_termination(&mut self)
        ensures
            final(self).phase == settled_phase(old(self).phase, old(self).watchtowers@),
            final(self).winner == settled_winner(old(self).phase, old(self).watchtowers@, old(self).winner),
            final(self).draughts == old(self).draughts,
            final(self).stones == old(self).stones,
            final(self).watchtowers == old(self).watchtowers,
            final(self).selected == old(self).selected,
            final(self).logic == old(self).logic,
            final(self).turn == old(self).turn,
    {
        if self.phase == GamePhase::Initialize || self.phase == GamePhase::PlaceWatchtower {
            return;
        }
        let white = count_towers(&self.watchtowers, Side::White);
        let black = count_towers(&self.watchtowers, Side::Black);
        if white != 0 && black != 0 {
            return;
        }
        if self.phase != GamePhase::GameOver {
            self.winner = if black == 0 { Some(Side::White) } else { Some(Side::Black) };
        }
        self.phase = GamePhase::GameOver;
    }

    /// Places a stone of the side to act on the intersection `(i, j)`. The
    /// side's territory is then worked out anew: opposing stones in its
    /// annihilation set are removed, and opposing draughts in its regions are
    /// taken over.
    pub fn place_stone(&mut self, i: usize, j: usize) -> (r: Result<(), GameError>)
        requires
            old(self).wf(),
            old(self).draughts@.len() < 127,
        ensures
            final(self).wf(),
            ({
                let side = side_spec(old(self).turn);
                let placed = old(self).stones@.push(Stone { i, j, side });
                let ours = cells_of(stone_cells(placed, side));
                if old(self).phase != GamePhase::PlaceGoPiece {
                    r == Err::<(), GameError>(GameError::WrongPhase) && *final(self) == *old(self)
                } else if i >= 18 || j >= 18 {
                    r == Err::<(), GameError>(GameError::InvalidPlacement) && *final(self) == *old(self)
                } else if tower_at(old(self).watchtowers@, Side::White) is None || tower_at(
                    old(self).watchtowers@,
                    Side::Black,
                ) is None {
                    r == Err::<(), GameError>(GameError::InvariantViolation) && *final(self) == *old(self)
                } else {
                    let next = transition(GamePhase::PlaceGoPiece, old(self).turn);
                    &&& r == Ok::<(), GameError>(())
                    &&& final(self).stones@ == stones_kept(placed, rival(side), annihilation(ours))
                    &&& final(self).draughts@ == taken_over(old(self).draughts@, side, territory_union(ours))
                    &&& final(self).watchtowers == old(self).watchtowers
                    &&& final(self).logic@ == old(self).logic@.push((GamePhase::PlaceGoPiece, old(self).turn))
                    &&& final(self).turn == next.1
                    &&& final(self).phase == settled_phase(next.0, old(self).watchtowers@)
                    &&& final(self).winner == settled_winner(next.0, old(self).watchtowers@, old(self).winner)
                    &&& final(self).selected == old(self).selected
                }
            }),
    {
        if self.phase != GamePhase::PlaceGoPiece {
            return Err(GameError::WrongPhase);
        }
        if i >= 18 || j >= 18 {
            return Err(GameError::InvalidPlacement);
        }
        if find_tower(&self.watchtowers, Side::White).is_none() || find_tower(&self.watchtowers, Side::Black).is_none() {
            return Err(GameError::InvariantViolation);
        }
        let side = side_of(self.turn);
        let enemy = match side {
            Side::Black => Side::White,
            Side::White => Side::Black,
        };
        let ghost placed = self.stones@.push(Stone { i, j, side });
        let ghost old_draughts = self.draughts@;
        let mut all_stones = copy_stones(&self.stones);
        all_stones.push(Stone { i, j, side });
        let our_cells = stones_of(&all_stones, side);
        let ours = CellSet::from_cells(&our_cells);
        proof {
            assert forall|c: Cell| #[trigger] ours@.contains(c) implies on_lattice(c) by {
                lemma_stone_cells_on_lattice(placed, side);
                let w = choose|w: int| 0 <= w < our_cells@.len() && our_cells@[w] == c;
            }
        }
        let (regions, gone) = territory_cells(&ours);
        let held = flatten_regions(&regions, Ghost(territory(ours@)));
        let held_set = CellSet::from_cells(&held);
        proof {
            assert(held_set@ =~= territory_union(ours@)) by {
                assert forall|c: Cell| #[trigger] territory_union(ours@).contains(c) implies in_span(c) by {
                    let k = choose|k: int| 0 <= k < territory(ours@).len() && #[trigger] territory(ours@)[k].contains(c);
                    assert(regions@[k]@.to_set().contains(c));
                    let w = choose|w: int| 0 <= w < regions@[k]@.len() && regions@[k]@[w] == c;
                    lemma_region_cells_in_span(ours@, k);
                }
            }
        }
        // the stones that remain
        let mut kept: Vec<Stone> = Vec::new();
        let mut k: usize = 0;
        while k < all_stones.len()
            invariant
                k <= all_stones.len(),
                all_stones@ == placed,
                gone.wf(),
                kept@ == stones_kept(placed.take(k as int), enemy, gone@),
                forall|m: int| 0 <= m < placed.len() ==> (#[trigger] placed[m]).i < 18 && placed[m].j < 18,
                forall|m: int| 0 <= m < kept@.len() ==> (#[trigger] kept@[m]).i < 18 && kept@[m].j < 18,
            decreases all_stones.len() - k,
        {
            proof {
                assert(placed.take(k as int + 1).drop_last() =~= placed.take(k as int));
            }
            let s = all_stones[k];
            if !(s.side == enemy && gone.contains(s.i, s.j)) {
                kept.push(s);
            }
            k = k + 1;
        }
        proof {
            assert(placed.take(k as int) =~= placed);
        }
        // the draughts that change side
        let mut count = draughts_of(&self.draughts, side).len();
        let ghost t = held_set@;
        proof {
            lemma_conversion_room(old_draughts, side, t, old_draughts.len() as int);
            assert(old_draughts.take(old_draughts.len() as int) =~= old_draughts);
        }
        let mut k: usize = 0;
        let ghost mid = *self;
        while k < self.draughts.len()
            invariant
                k <= self.draughts@.len(),
                self.draughts@.len() == old_draughts.len(),
                old_draughts.len() < 127,
                held_set.wf(),
                held_set@ == t,
                count == draught_cells(old_draughts, side).len() + conversions(old_draughts, side, t, k as int),
                draught_cells(old_draughts, side).len() + conversions(old_draughts, side, t, old_draughts.len() as int) <= old_draughts.len(),
                forall|m: int| 0 <= m <= old_draughts.len() ==> #[trigger] conversions(old_draughts, side, t, m) <= conversions(old_draughts, side, t, old_draughts.len() as int),
                forall|m: int| 0 <= m < k ==> self.draughts@[m] == #[trigger] taken_over(old_draughts, side, t)[m],
                forall|m: int| k <= m < old_draughts.len() ==> self.draughts@[m] == #[trigger] old_draughts[m],
                self.stones == mid.stones,
                self.watchtowers == mid.watchtowers,
                self.phase == mid.phase,
                self.turn == mid.turn,
                self.logic == mid.logic,
                self.selected == mid.selected,
                self.winner == mid.winner,
            decreases old_draughts.len() - k,
        {
            let d = self.draughts[k];
            assert(d == old_draughts[k as int]);
            if d.side != side && held_set.contains(d.i, d.j) {
                let nd = Draught { i: d.i, j: d.j, n: (count + 1) as i8, side };
                assert(nd == taken_over(old_draughts, side, t)[k as int]);
                self.draughts.set(k, nd);
                count = count + 1;
            } else {
                assert(d == taken_over(old_draughts, side, t)[k as int]);
            }
            k = k + 1;
        }
        proof {
            assert(self.draughts@ =~= taken_over(old_draughts, side, t));
            assert(gone@ == annihilation(ours@));
        }
        self.stones = kept;
        self.finish_action(GamePhase::PlaceGoPiece);
        Ok(())
    }

    /// Selects the draught of the side to act with ordinal `n` for the next
    /// move.
    pub fn select_draught(&mut self, n: i8) -> (r: Result<(), GameError>)
        ensures
            old(self).phase != GamePhase::MoveDraught ==> (r == Err::<(), GameError>(GameError::WrongPhase))
                && *final(self) == *old(self),
            old(self).phase == GamePhase::MoveDraught && !(exists|a: int| first_draught(old(self).draughts@, side_spec(old(self).turn), n, a))
                ==> (r == Err::<(), GameError>(GameError::MissingEntity)) && *final(self) == *old(self),
            old(self).phase == GamePhase::MoveDraught && (exists|a: int| first_draught(old(self).draughts@, side_spec(old(self).turn), n, a))
                ==> (r == Ok::<(), GameError>(())) && *final(self) == (Game { selected: SelectedDraught { n: Some(n) }, ..*old(self) }),
    {
        if self.phase != GamePhase::MoveDraught {
            return Err(GameError::WrongPhase);
        }
        match find_draught(&self.draughts, side_of(self.turn), n) {
            Some(_) => {
                self.selected = SelectedDraught { n: Some(n) };
                Ok(())
            },
            None => Err(GameError::MissingEntity),
        }
    }

    /// The kind of the move of the selected draught to `(i, j)`, if that is
    /// one of its legal moves; the game does not change.
    pub fn preview_draught_move(&self, i: usize, j: usize) -> (r: Result<CheckersMoveType, GameError>)
        requires
            self.wf(),
        ensures
            ({
                let side = side_spec(self.turn);
                let ds = self.draughts@;
                let sel = self.selected.n;
                if self.phase != GamePhase::MoveDraught {
                    r == Err::<CheckersMoveType, GameError>(GameError::WrongPhase)
                } else if sel is None || !(exists|a: int| first_draught(ds, side, sel.unwrap(), a)) {
                    r == Err::<CheckersMoveType, GameError>(GameError::MissingEntity)
                } else if tower_at(self.watchtowers@, Side::White) is None || tower_at(
                    self.watchtowers@,
                    Side::Black,
                ) is None {
                    r == Err::<CheckersMoveType, GameError>(GameError::InvariantViolation)
                } else {
                    forall|a: int| #[trigger] first_draught(ds, side, sel.unwrap(), a) ==> {
                        let moves = moves_from(ds, self.stones@, side, (ds[a].i, ds[a].j));
                        if !(exists|q: int| first_move(moves, (i, j), q)) {
                            r == Err::<CheckersMoveType, GameError>(GameError::IllegalMove)
                        } else {
                            forall|q: int| #[trigger] first_move(moves, (i, j), q) ==> r == Ok::<CheckersMoveType, GameError>(moves[q].1)
                        }
                    }
                }
            }),
    {
        if self.phase != GamePhase::MoveDraught {
            return Err(GameError::WrongPhase);
        }
        let side = side_of(self.turn);
        let sel = match self.selected.n {
            Some(n) => n,
            None => {
                return Err(GameError::MissingEntity);
            },
        };
        let a = match find_draught(&self.draughts, side, sel) {
            Some(a) => a,
            None => {
                return Err(GameError::MissingEntity);
            },
        };
        let white_tower = match find_tower(&self.watchtowers, Side::White) {
            Some(c) => c,
            None => {
                return Err(GameError::InvariantViolation);
            },
        };
        let black_tower = match find_tower(&self.watchtowers, Side::Black) {
            Some(c) => c,
            None => {
                return Err(GameError::InvariantViolation);
            },
        };
        let d = self.draughts[a];
        let ghost ds = self.draughts@;
        proof {
            lemma_stone_cells_on_lattice(self.stones@, Side::White);
            lemma_stone_cells_on_lattice(self.stones@, Side::Black);
            assert forall|a2: int| first_draught(ds, side, sel, a2) implies a2 == a as int by {
                if a2 < a {
                    assert(!(ds[a2].side == side && ds[a2].n == sel));
                }
                if a2 > a {
                    assert(!(ds[a as int].side == side && ds[a as int].n == sel));
                }
            }
        }
        let bd = draughts_of(&self.draughts, Side::Black);
        let wd = draughts_of(&self.draughts, Side::White);
        let ws = stones_of(&self.stones, Side::White);
        let bs = stones_of(&self.stones, Side::Black);
        let ghost (bdv, wdv, wsv, bsv) = (bd@, wd@, ws@, bs@);
        let (targets, kinds, _, _) = self.logic.legal_draught_moves(
            self.turn,
            (d.i, d.j),
            bd,
            wd,
            ws,
            bs,
            white_tower,
            black_tower,
        );
        let ghost moves = moves_from(ds, self.stones@, side, (d.i, d.j));
        proof {
            let l = crate::moves::draught_listing(self.turn, (d.i, d.j), bdv, wdv, wsv, bsv);
            assert(l == moves);
            assert forall|m: int| 0 <= m < moves.len() implies (#[trigger] moves[m]).0 == targets@[m]
                && moves[m].1 == kinds@[m] by {
                assert(l[m].0 == targets@[m] && l[m].1 == kinds@[m]);
            }
        }
        match find_target(&targets, i, j) {
            Some(q) => {
                proof {
                    assert forall|m: int| 0 <= m < q implies (#[trigger] moves[m]).0 != (i, j) by {
                        assert(moves[m].0 == targets@[m]);
                    }
                    assert(moves[q as int].0 == targets@[q as int]);
                    assert(first_move(moves, (i, j), q as int));
                    assert forall|q2: int| first_move(moves, (i, j), q2) implies q2 == q as int by {
                        if q2 < q {
                            assert(moves[q2].0 != (i, j));
                        }
                        if q2 > q {
                            assert(moves[q as int].0 != (i, j));
                        }
                    }
                }
                Ok(kinds[q])
            },
            None => {
                proof {
                    assert forall|q2: int| !first_move(moves, (i, j), q2) by {
                        if 0 <= q2 < moves.len() {
                            assert(moves[q2].0 == targets@[q2]);
                        }
                    }
                }
                Err(GameError::IllegalMove)
            },
        }
    }

    /// Moves the selected draught to `(i, j)`, if that is one of its legal
    /// moves. A capture takes the jumped draught over where it stands.
    pub fn commit_draught_move(&mut self, i: usize, j: usize) -> (r: Result<(), GameError>)
        requires
            old(self).wf(),
            old(self).draughts@.len() < 127,
        ensures
            final(self).wf(),
            ({
                let side = side_spec(old(self).turn);
                let ds = old(self).draughts@;
                let sel = old(self).selected.n;
                if old(self).phase != GamePhase::MoveDraught {
                    r == Err::<(), GameError>(GameError::WrongPhase) && *final(self) == *old(self)
                } else if sel is None || !(exists|a: int| first_draught(ds, side, sel.unwrap(), a)) {
                    r == Err::<(), GameError>(GameError::MissingEntity) && *final(self) == *old(self)
                } else if tower_at(old(self).watchtowers@, Side::White) is None || tower_at(
                    old(self).watchtowers@,
                    Side::Black,
                ) is None {
                    r == Err::<(), GameError>(GameError::InvariantViolation) && *final(self) == *old(self)
                } else {
                    forall|a: int| #[trigger] first_draught(ds, side, sel.unwrap(), a) ==> {
                        let d = ds[a];
                        let moves = moves_from(ds, old(self).stones@, side, (d.i, d.j));
                        let next = transition(GamePhase::MoveDraught, old(self).turn);
                        let moved = Draught { i, j, ..d };
                        if !(exists|q: int| first_move(moves, (i, j), q)) {
                            r == Err::<(), GameError>(GameError::IllegalMove) && *final(self) == *old(self)
                        } else {
                            &&& r == Ok::<(), GameError>(())
                            &&& forall|q: int| #[trigger] first_move(moves, (i, j), q) ==> {
                                let mv = moves[q];
                                if mv.1 == CheckersMoveType::DraughtTakeOver {
                                    forall|b: int| #[trigger] first_on(ds, rival(side), mv.2, b) ==>
                                        final(self).draughts@ == ds.update(
                                            b,
                                            Draught {
                                                i: mv.2.0,
                                                j: mv.2.1,
                                                n: (draught_cells(ds, side).len() + 1) as i8,
                                                side,
                                            },
                                        ).update(a, moved)
                                } else {
                                    final(self).draughts@ == ds.update(a, moved)
                                }
                            }
                            &&& final(self).stones == old(self).stones
                            &&& final(self).watchtowers == old(self).watchtowers
                            &&& final(self).selected.n is None
                            &&& final(self).logic@ == old(self).logic@.push((GamePhase::MoveDraught, old(self).turn))
                            &&& final(self).turn == next.1
                            &&& final(self).phase == settled_phase(next.0, old(self).watchtowers@)
                            &&& final(self).winner == settled_winner(next.0, old(self).watchtowers@, old(self).winner)
                        }
                    }
                }
            }),
    {
        if self.phase != GamePhase::MoveDraught {
            return Err(GameError::WrongPhase);
        }
        let side = side_of(self.turn);
        let sel = match self.selected.n {
            Some(n) => n,
            None => {
                return Err(GameError::MissingEntity);
            },
        };
        let a = match find_draught(&self.draughts, side, sel) {
            Some(a) => a,
            None => {
                return Err(GameError::MissingEntity);
            },
        };
        let white_tower = match find_tower(&self.watchtowers, Side::White) {
            Some(c) => c,
            None => {
                return Err(GameError::InvariantViolation);
            },
        };
        let black_tower = match find_tower(&self.watchtowers, Side::Black) {
            Some(c) => c,
            None => {
                return Err(GameError::InvariantViolation);
            },
        };
        let d = self.draughts[a];
        let ghost ds = self.draughts@;
        let enemy = match side {
            Side::Black => Side::White,
            Side::White => Side::Black,
        };
        proof {
            lemma_stone_cells_on_lattice(self.stones@, Side::White);
            lemma_stone_cells_on_lattice(self.stones@, Side::Black);
            assert(forall|a2: int| first_draught(ds, side, sel, a2) ==> a2 == a as int) by {
                assert forall|a2: int| first_draught(ds, side, sel, a2) implies a2 == a as int by {
                    if a2 < a {
                        assert(!(ds[a2].side == side && ds[a2].n == sel));
                    }
                    if a2 > a {
                        assert(!(ds[a as int].side == side && ds[a as int].n == sel));
                    }
                }
            }
        }
        let bd = draughts_of(&self.draughts, Side::Black);
        let wd = draughts_of(&self.draughts, Side::White);
        let ws = stones_of(&self.stones, Side::White);
        let bs = stones_of(&self.stones, Side::Black);
        let ghost (bdv, wdv, wsv, bsv) = (bd@, wd@, ws@, bs@);
        let (targets, kinds, taken, _) = self.logic.legal_draught_moves(
            self.turn,
            (d.i, d.j),
            bd,
            wd,
            ws,
            bs,
            white_tower,
            black_tower,
        );
        let ghost moves = moves_from(ds, self.stones@, side, (d.i, d.j));
        proof {
            let l = crate::moves::draught_listing(self.turn, (d.i, d.j), bdv, wdv, wsv, bsv);
            assert(l == moves);
            assert forall|m: int| 0 <= m < moves.len() implies (#[trigger] moves[m]) == (targets@[m], kinds@[m], taken@[m]) by {
                assert(l[m] == (targets@[m], kinds@[m], taken@[m]));
            }
            assert(targets@.len() == moves.len());
            crate::moves::lemma_listing_facts(
                (d.i, d.j),
                16,
                draught_cells(ds, side),
                draught_cells(ds, rival(side)),
                stone_cells(self.stones@, rival(side)),
                territory_union(cells_of(stone_cells(self.stones@, rival(side)))),
            );
        }
        let q = match find_target(&targets, i, j) {
            Some(q) => q,
            None => {
                proof {
                    assert forall|q2: int| !first_move(moves, (i, j), q2) by {
                        if 0 <= q2 < moves.len() {
                            assert(moves[q2].0 == targets@[q2]);
                        }
                    }
                }
                return Err(GameError::IllegalMove);
            },
        };
        let ghost mv = moves[q as int];
        proof {
            assert(moves[q as int].0 == targets@[q as int]);
            assert forall|m: int| 0 <= m < q implies (#[trigger] moves[m]).0 != (i, j) by {
                assert(moves[m].0 == targets@[m]);
            }
            assert(first_move(moves, (i, j), q as int));
            assert forall|q2: int| first_move(moves, (i, j), q2) implies q2 == q as int by {
                if q2 < q {
                    assert(moves[q2].0 != (i, j));
                }
                if q2 > q {
                    assert(moves[q as int].0 != (i, j));
                }
            }
            assert(mv == (targets@[q as int], kinds@[q as int], taken@[q as int]));
        }
        if kinds[q] == CheckersMoveType::DraughtTakeOver {
            let c = taken[q];
            let count = draughts_of(&self.draughts, side).len();
            proof {
                lemma_draught_cells_source(ds, side, c);
                lemma_draught_cells_source(ds, enemy, c);
            }
            let b = match find_on(&self.draughts, enemy, c) {
                Some(b) => b,
                None => {
                    proof {
                        let b2 = choose|b2: int| 0 <= b2 < ds.len() && (#[trigger] ds[b2]).side == enemy && (ds[b2].i, ds[b2].j) == c;
                    }
                    return Err(GameError::InvariantViolation);
                },
            };
            proof {
                assert(first_on(ds, enemy, c, b as int));
                assert forall|b2: int| first_on(ds, enemy, c, b2) implies b2 == b as int by {
                    if b2 < b {
                        assert(!((ds[b2]).side == enemy && (ds[b2].i, ds[b2].j) == c));
                    }
                    if b2 > b {
                        assert(!((ds[b as int]).side == enemy && (ds[b as int].i, ds[b as int].j) == c));
                    }
                }
                assert(ds.len() < 127);
            }
            self.draughts.set(b, Draught { i: c.0, j: c.1, n: (count + 1) as i8, side });
        }
        self.draughts.set(a, Draught { i, j, ..d });
        self.selected = SelectedDraught { n: None };
        self.finish_action(GamePhase::MoveDraught);
        proof {
            assert forall|k: int| 0 <= k < self.draughts@.len() implies (#[trigger] self.draughts@[k]).i < 19
                && self.draughts@[k].j < 19 by {
                assert(ds[k].i < 19 && ds[k].j < 19);
            }
        }
        Ok(())
    }

    /// Clears the three-by-three block centred on the selected draught: every
    /// draught, stone and watchtower in it is removed, of either side. This
    /// ends the move.
    pub fn invoke_nuke(&mut self) -> (r: Result<(), GameError>)
        requires
            old(self).wf(),
        ensures
            final(self).wf(),
            ({
                let side = side_spec(old(self).turn);
                let ds = old(self).draughts@;
                let sel = old(self).selected.n;
                if old(self).phase != GamePhase::MoveDraught {
                    r == Err::<(), GameError>(GameError::WrongPhase) && *final(self) == *old(self)
                } else if sel is None || !(exists|a: int| first_draught(ds, side, sel.unwrap(), a)) {
                    r == Err::<(), GameError>(GameError::MissingEntity) && *final(self) == *old(self)
                } else {
                    forall|a: int| #[trigger] first_draught(ds, side, sel.unwrap(), a) ==> {
                        let (x, y) = (ds[a].i, ds[a].j);
                        let towers = towers_far(old(self).watchtowers@, x, y);
                        let next = transition(GamePhase::MoveDraught, old(self).turn);
                        &&& r == Ok::<(), GameError>(())
                        &&& final(self).draughts@ == draughts_far(ds, x, y)
                        &&& final(self).stones@ == stones_far(old(self).stones@, x, y)
                        &&& final(self).watchtowers@ == towers
                        &&& final(self).selected.n is None
                        &&& final(self).logic@ == old(self).logic@.push((GamePhase::MoveDraught, old(self).turn))
                        &&& final(self).turn == next.1
                        &&& final(self).phase == settled_phase(next.0, towers)
                        &&& final(self).winner == settled_winner(next.0, towers, old(self).winner)
                    }
                }
            }),
    {
        if self.phase != GamePhase::MoveDraught {
            return Err(GameError::WrongPhase);
        }
        let side = side_of(self.turn);
        let sel = match self.selected.n {
            Some(n) => n,
            None => {
                return Err(GameError::MissingEntity);
            },
        };
        let a = match find_draught(&self.draughts, side, sel) {
            Some(a) => a,
            None => {
                return Err(GameError::MissingEntity);
            },
        };
        let ghost ds = self.draughts@;
        proof {
            assert forall|a2: int| first_draught(ds, side, sel, a2) implies a2 == a as int by {
                if a2 < a {
                    assert(!(ds[a2].side == side && ds[a2].n == sel));
                }
                if a2 > a {
                    assert(!(ds[a as int].side == side && ds[a as int].n == sel));
                }
            }
        }
        let x = self.draughts[a].i;
        let y = self.draughts[a].j;
        let mut draughts: Vec<Draught> = Vec::new();
        let mut k: usize = 0;
        while k < self.draughts.len()
            invariant
                k <= self.draughts@.len(),
                self.draughts@ == ds,
                draughts@ == draughts_far(ds.take(k as int), x, y),
                forall|m: int| 0 <= m < ds.len() ==> (#[trigger] ds[m]).i < 19 && ds[m].j < 19,
                forall|m: int| 0 <= m < draughts@.len() ==> (#[trigger] draughts@[m]).i < 19 && draughts@[m].j < 19,
            decreases self.draughts.len() - k,
        {
            proof {
                assert(ds.take(k as int + 1).drop_last() =~= ds.take(k as int));
            }
            let d = self.draughts[k];
            if !(d.i + 1 >= x && d.i <= x + 1 && d.j + 1 >= y && d.j <= y + 1) {
                draughts.push(d);
            }
            k = k + 1;
        }
        proof {
            assert(ds.take(k as int) =~= ds);
        }
        let ghost ss = self.stones@;
        let mut stones: Vec<Stone> = Vec::new();
        let mut k: usize = 0;
        while k < self.stones.len()
            invariant
                k <= self.stones@.len(),
                self.stones@ == ss,
                x < 19,
                y < 19,
                stones@ == stones_far(ss.take(k as int), x, y),
                forall|m: int| 0 <= m < ss.len() ==> (#[trigger] ss[m]).i < 18 && ss[m].j < 18,
                forall|m: int| 0 <= m < stones@.len() ==> (#[trigger] stones@[m]).i < 18 && stones@[m].j < 18,
            decreases self.stones.len() - k,
        {
            proof {
                assert(ss.take(k as int + 1).drop_last() =~= ss.take(k as int));
            }
            let s = self.stones[k];
            if !(s.i + 1 >= x && s.i <= x + 1 && s.j + 1 >= y && s.j <= y + 1) {
                stones.push(s);
            }
            k = k + 1;
        }
        proof {
            assert(ss.take(k as int) =~= ss);
        }
        let ghost ts = self.watchtowers@;
        let mut towers: Vec<Watchtower> = Vec::new();
        let mut k: usize = 0;
        while k < self.watchtowers.len()
            invariant
                k <= self.watchtowers@.len(),
                self.watchtowers@ == ts,
                x < 19,
                y < 19,
                towers@ == towers_far(ts.take(k as int), x, y),
            decreases self.watchtowers.len() - k,
        {
            proof {
                assert(ts.take(k as int + 1).drop_last() =~= ts.take(k as int));
            }
            let t = self.watchtowers[k];
            if !(t.i <= x + 1 && t.i + 1 >= x && t.j <= y + 1 && t.j + 1 >= y) {
                towers.push(t);
            }
            k = k + 1;
        }
        proof {
            assert(ts.take(k as int) =~= ts);
        }
        self.draughts = draughts;
        self.stones = stones;
        self.watchtowers = towers;
        self.selected = SelectedDraught { n: None };
        self.finish_action(GamePhase::MoveDraught);
        Ok(())
    }

    /// Confirms the watchtower of the side to act on `(i, j)`: the tower, the
    /// eight draughts around it and the ring of twelve stones are placed, and
    /// the turn passes on.
    pub fn confirm_watchtower_at(&mut self, i: usize, j: usize) -> (r: Result<(), GameError>)
        requires
            old(self).wf(),
        ensures
            final(self).wf(),
            ({
                let side = side_spec(old(self).turn);
                let ok = site_ok(i as int, j as int, tower_at(old(self).watchtowers@, rival(side)));
                if old(self).phase != GamePhase::PlaceWatchtower {
                    r == Err::<(), GameError>(GameError::WrongPhase) && *final(self) == *old(self)
                } else if !ok {
                    r == Err::<(), GameError>(GameError::InvalidPlacement) && *final(self) == *old(self)
                } else {
                    let next = transition(GamePhase::PlaceWatchtower, old(self).turn);
                    let towers = old(self).watchtowers@.push(Watchtower { i, j, side });
                    &&& r == Ok::<(), GameError>(())
                    &&& final(self).watchtowers@ == towers
                    &&& final(self).draughts@ == old(self).draughts@ + guard_draughts(i, j, side)
                    &&& final(self).stones@ == old(self).stones@ + ring_stones(i, j, side)
                    &&& final(self).logic@ == old(self).logic@.push((GamePhase::PlaceWatchtower, old(self).turn))
                    &&& final(self).turn == next.1
                    &&& final(self).phase == settled_phase(next.0, towers)
                    &&& final(self).winner == settled_winner(next.0, towers, old(self).winner)
                    &&& final(self).selected == old(self).selected
                }
            }),
    {
        if self.phase != GamePhase::PlaceWatchtower {
            return Err(GameError::WrongPhase);
        }
        if !self.watchtower_site_ok(i, j) {
            return Err(GameError::InvalidPlacement);
        }
        let side = side_of(self.turn);
        let ghost old_draughts = self.draughts@;
        let ghost old_stones = self.stones@;
        self.watchtowers.push(Watchtower { i, j, side });
        let ghost mid = *self;
        let mut n: usize = 0;
        while n < 9
            invariant
                3 <= i <= 15,
                3 <= j <= 15,
                n <= 9,
                self.stones@ == old_stones,
                self.watchtowers == mid.watchtowers,
                self.phase == mid.phase,
                self.turn == mid.turn,
                self.logic == mid.logic,
                self.selected == mid.selected,
                self.winner == mid.winner,
                self.draughts@ == old_draughts + guard_draughts(i, j, side).take(
                    if n <= 4 { n as int } else { n as int - 1 },
                ),
            decreases 9 - n,
        {
            if n != 4 {
                let d = Draught { i: i + n / 3 - 1, j: j + n % 3 - 1, n: n as i8, side };
                proof {
                    let k = if n < 4 { n as int } else { n as int - 1 };
                    assert(guard_draughts(i, j, side)[k] == d);
                    assert(guard_draughts(i, j, side).take(k + 1) =~= guard_draughts(i, j, side).take(k).push(d));
                }
                self.draughts.push(d);
            }
            n = n + 1;
        }
        proof {
            assert(guard_draughts(i, j, side).take(8) =~= guard_draughts(i, j, side));
        }
        let mut k: usize = 0;
        while k < 12
            invariant
                3 <= i <= 15,
                3 <= j <= 15,
                k <= 12,
                self.draughts@ == old_draughts + guard_draughts(i, j, side),
                self.watchtowers == mid.watchtowers,
                self.phase == mid.phase,
                self.turn == mid.turn,
                self.logic == mid.logic,
                self.selected == mid.selected,
                self.winner == mid.winner,
                self.stones@ == old_stones + ring_stones(i, j, side).take(k as int),
            decreases 12 - k,
        {
            let (di, dj) = ring_offset_exec(k);
            let s = Stone {
                i: (i as i64 + di as i64) as usize,
                j: (j as i64 + dj as i64) as usize,
                side,
            };
            proof {
                assert(ring_stones(i, j, side)[k as int] == s);
                assert(ring_stones(i, j, side).take(k as int + 1) =~= ring_stones(i, j, side).take(k as int).push(s));
            }
            self.stones.push(s);
            k = k + 1;
        }
        proof {
            assert(guard_draughts(i, j, side).take(8) =~= guard_draughts(i, j, side));
            assert(ring_stones(i, j, side).take(12) =~= ring_stones(i, j, side));
            assert forall|k: int| 0 <= k < self.stones@.len() implies (#[trigger] self.stones@[k]).i < 18
                && self.stones@[k].j < 18 by {
                if k < old_stones.len() {
                    assert(old_stones[k] == old(self).stones@[k]);
                } else {
                    assert(self.stones@[k] == ring_stones(i, j, side)[k - old_stones.len()]);
                }
            }
            assert forall|k: int| 0 <= k < self.draughts@.len() implies (#[trigger] self.draughts@[k]).i < 19
                && self.draughts@[k].j < 19 by {
                if k < old_draughts.len() {
                    assert(old_draughts[k] == old(self).draughts@[k]);
                } else {
                    assert(self.draughts@[k] == guard_draughts(i, j, side)[k - old_draughts.len()]);
                }
            }
        }
        self.finish_action(GamePhase::PlaceWatchtower);
        Ok(())
    }
}

/// The stones of `ss` without those of side `enemy` that stand on a cell of
/// `gone`.
pub open spec fn stones_kept(ss: Seq<Stone>, enemy: Side, gone: Set<Cell>) -> Seq<Stone>
    decreases ss.len(),
{
    if ss.len() == 0 {
        seq![]
    } else {
        let rest = stones_kept(ss.drop_last(), enemy, gone);
        let s = ss.last();
        if s.side == enemy && gone.contains((s.i, s.j)) {
            rest
        } else {
            rest.push(s)
        }
    }
}

/// The draught `d` is an opposing one standing in the territory `t` of
/// `side`, which takes it over.
pub open spec fn converts(d: Draught, side: Side, t: Set<Cell>) -> bool {
    d.side != side && t.contains((d.i, d.j))
}

/// How many of the first `k` draughts of `ds` are taken over.
pub open spec fn conversions(ds: Seq<Draught>, side: Side, t: Set<Cell>, k: int) -> int
    decreases k,
{
    if k <= 0 {
        0
    } else {
        conversions(ds, side, t, k - 1) + if converts(ds[k - 1], side, t) {
            1int
        } else {
            0int
        }
    }
}

/// The draughts after `side` took over those in its territory `t`: each
/// draught taken over changes side where it stands and gets the ordinal
/// that follows the number of draughts that `side` has at that moment.
pub open spec fn taken_over(ds: Seq<Draught>, side: Side, t: Set<Cell>) -> Seq<Draught> {
    Seq::new(
        ds.len(),
        |k: int|
            if converts(ds[k], side, t) {
                Draught {
                    i: ds[k].i,
                    j: ds[k].j,
                    n: (draught_cells(ds, side).len() + conversions(ds, side, t, k) + 1) as i8,
                    side,
                }
            } else {
                ds[k]
            },
    )
}

proof fn lemma_conversion_room(ds: Seq<Draught>, side: Side, t: Set<Cell>, n: int)
    requires
        0 <= n <= ds.len(),
    ensures
        draught_cells(ds.take(n), side).len() + conversions(ds, side, t, n) <= n,
        forall|k: int| 0 <= k <= n ==> #[trigger] conversions(ds, side, t, k) <= conversions(ds, side, t, n),
    decreases n,
{
    if n > 0 {
        lemma_conversion_room(ds, side, t, n - 1);
        assert(ds.take(n).drop_last() =~= ds.take(n - 1));
    }
}

/// `b` is the first index of a draught of `side` on `cell`.
pub open spec fn first_on(ds: Seq<Draught>, side: Side, cell: Cell, b: int) -> bool {
    &&& 0 <= b < ds.len()
    &&& ds[b].side == side && (ds[b].i, ds[b].j) == cell
    &&& forall|m: int| 0 <= m < b ==> !((#[trigger] ds[m]).side == side && (ds[m].i, ds[m].j) == cell)
}

/// `q` is the first listed move whose target is `cell`.
pub open spec fn first_move(moves: Seq<crate::moves::Move>, cell: Cell, q: int) -> bool {
    &&& 0 <= q < moves.len()
    &&& moves[q].0 == cell
    &&& forall|m: int| 0 <= m < q ==> (#[trigger] moves[m]).0 != cell
}

/// The legal moves of the draught on `d` of `side` on a board with the
/// given draughts and stones.
pub open spec fn moves_from(ds: Seq<Draught>, ss: Seq<Stone>, side: Side, d: Cell) -> Seq<crate::moves::Move> {
    let their_stones = stone_cells(ss, rival(side));
    crate::moves::listing(
        d,
        16,
        draught_cells(ds, side),
        draught_cells(ds, rival(side)),
        their_stones,
        territory_union(cells_of(their_stones)),
    )
}

/// The piece at `(i, j)` lies in the three-by-three block centred on `(x, y)`.
pub open spec fn near(i: usize, j: usize, x: usize, y: usize) -> bool {
    -1 <= i - x <= 1 && -1 <= j - y <= 1
}

/// The draughts outside the block centred on `(x, y)`.
pub open spec fn draughts_far(ds: Seq<Draught>, x: usize, y: usize) -> Seq<Draught>
    decreases ds.len(),
{
    if ds.len() == 0 {
        seq![]
    } else {
        let rest = draughts_far(ds.drop_last(), x, y);
        if near(ds.last().i, ds.last().j, x, y) {
            rest
        } else {
            rest.push(ds.last())
        }
    }
}

/// The stones outside the block centred on `(x, y)`.
pub open spec fn stones_far(ss: Seq<Stone>, x: usize, y: usize) -> Seq<Stone>
    decreases ss.len(),
{
    if ss.len() == 0 {
        seq![]
    } else {
        let rest = stones_far(ss.drop_last(), x, y);
        if near(ss.last().i, ss.last().j, x, y) {
            rest
        } else {
            rest.push(ss.last())
        }
    }
}

/// The watchtowers outside the block centred on `(x, y)`.
pub open spec fn towers_far(ts: Seq<Watchtower>, x: usize, y: usize) -> Seq<Watchtower>
    decreases ts.len(),
{
    if ts.len() == 0 {
        seq![]
    } else {
        let rest = towers_far(ts.drop_last(), x, y);
        if near(ts.last().i, ts.last().j, x, y) {
            rest
        } else {
            rest.push(ts.last())
        }
    }
}

proof fn lemma_draught_cells_source(ds: Seq<Draught>, side: Side, c: Cell)
    ensures
        draught_cells(ds, side).len() <= ds.len(),
        draught_cells(ds, side).contains(c) ==> exists|b: int| 0 <= b < ds.len() && (#[trigger] ds[b]).side == side
            && (ds[b].i, ds[b].j) == c,
    decreases ds.len(),
{
    if ds.len() > 0 {
        let rest = ds.drop_last();
        lemma_draught_cells_source(rest, side, c);
        let rc = draught_cells(rest, side);
        if draught_cells(ds, side).contains(c) {
            let w = choose|w: int| 0 <= w < draught_cells(ds, side).len() && draught_cells(ds, side)[w] == c;
            if w < rc.len() {
                assert(rc[w] == c);
                let b = choose|b: int| 0 <= b < rest.len() && (#[trigger] rest[b]).side == side && (rest[b].i, rest[b].j) == c;
                assert(ds[b] == rest[b]);
            } else {
                assert(ds[ds.len() - 1] == ds.last());
            }
        }
    }
}

/// The index of the first cell `(i, j)` in `targets`, if any.
fn find_target(targets: &Vec<Cell>, i: usize, j: usize) -> (r: Option<usize>)
    ensures
        match r {
            Some(q) => q < targets@.len() && targets@[q as int] == (i, j) && forall|m: int|
                0 <= m < q ==> targets@[m] != (i, j),
            None => forall|m: int| 0 <= m < targets@.len() ==> targets@[m] != (i, j),
        },
{
    let mut q: usize = 0;
    while q < targets.len()
        invariant
            q <= targets@.len(),
            forall|m: int| 0 <= m < q ==> targets@[m] != (i, j),
        decreases targets.len() - q,
    {
        if targets[q].0 == i && targets[q].1 == j {
            return Some(q);
        }
        q = q + 1;
    }
    None
}

/// The index of the first draught of `side` on `cell`, if any.
fn find_on(ds: &Vec<Draught>, side: Side, cell: Cell) -> (r: Option<usize>)
    ensures
        match r {
            Some(b) => first_on(ds@, side, cell, b as int),
            None => forall|b: int| 0 <= b < ds@.len() ==> !((#[trigger] ds@[b]).side == side && (ds@[b].i, ds@[b].j) == cell),
        },
{
    let mut b: usize = 0;
    while b < ds.len()
        invariant
            b <= ds@.len(),
            forall|m: int| 0 <= m < b ==> !((#[trigger] ds@[m]).side == side && (ds@[m].i, ds@[m].j) == cell),
        decreases ds.len() - b,
    {
        let e = ds[b];
        if e.side == side && e.i == cell.0 && e.j == cell.1 {
            return Some(b);
        }
        b = b + 1;
    }
    None
}

/// The number of watchtowers of `side`.
pub fn count_towers(ts: &Vec<Watchtower>, side: Side) -> (r: usize)
    ensures
        r == tower_count(ts@, side),
{
    let mut c: usize = 0;
    let mut k: usize = 0;
    while k < ts.len()
        invariant
            k <= ts.len(),
            c == tower_count(ts@.take(k as int), side),
            c <= k,
        decreases ts.len() - k,
    {
        proof {
            assert(ts@.take(k as int + 1).drop_last() =~= ts@.take(k as int));
        }
        if ts[k].side == side {
            c = c + 1;
        }
        k = k + 1;
    }
    proof {
        assert(ts@.take(k as int) =~= ts@);
    }
    c
}

/// The cell of the first watchtower of `side`, if any.
pub fn find_tower(ts: &Vec<Watchtower>, side: Side) -> (r: Option<Cell>)
    ensures
        r == tower_at(ts@, side),
{
    let mut k: usize = 0;
    while k < ts.len()
        invariant
            k <= ts.len(),
            forall|m: int| 0 <= m < k ==> (#[trigger] ts@[m]).side != side,
        decreases ts.len() - k,
    {
        if ts[k].side == side {
            proof {
                assert(first_tower(ts@, side, k as int));
                let a = choose|a: int| first_tower(ts@, side, a);
                assert(a == k) by {
                    if a < k {
                        assert(ts@[a].side != side);
                    }
                    if a > k {
                        assert(ts@[k as int].side != side);
                    }
                }
            }
            return Some((ts[k].i, ts[k].j));
        }
        k = k + 1;
    }
    None
}

/// The index of the first draught of `side` with ordinal `n`, if any.
pub fn find_draught(ds: &Vec<Draught>, side: Side, n: i8) -> (r: Option<usize>)
    ensures
        match r {
            Some(a) => first_draught(ds@, side, n, a as int),
            None => forall|a: int| !first_draught(ds@, side, n, a),
        },
{
    let mut k: usize = 0;
    while k < ds.len()
        invariant
            k <= ds.len(),
            forall|m: int| 0 <= m < k ==> !((#[trigger] ds@[m]).side == side && ds@[m].n == n),
        decreases ds.len() - k,
    {
        if ds[k].side == side && ds[k].n == n {
            return Some(k);
        }
        k = k + 1;
    }
    proof {
        assert forall|a: int| !first_draught(ds@, side, n, a) by {
            if 0 <= a < ds@.len() {
                assert(!(ds@[a].side == side && ds@[a].n == n));
            }
        }
    }
    None
}

/// The cells of the draughts of `side`.
pub fn draughts_of(ds: &Vec<Draught>, side: Side) -> (r: Vec<Cell>)
    ensures
        r@ == draught_cells(ds@, side),
{
    let mut r: Vec<Cell> = Vec::new();
    let mut k: usize = 0;
    while k < ds.len()
        invariant
            k <= ds.len(),
            r@ == draught_cells(ds@.take(k as int), side),
        decreases ds.len() - k,
    {
        proof {
            assert(ds@.take(k as int + 1).drop_last() =~= ds@.take(k as int));
        }
        if ds[k].side == side {
            r.push((ds[k].i, ds[k].j));
        }
        k = k + 1;
    }
    proof {
        assert(ds@.take(k as int) =~= ds@);
    }
    r
}

/// A copy of a list of stones.
pub fn copy_stones(ss: &Vec<Stone>) -> (r: Vec<Stone>)
    ensures
        r@ == ss@,
{
    let mut r: Vec<Stone> = Vec::new();
    let mut k: usize = 0;
    while k < ss.len()
        invariant
            k <= ss.len(),
            r@ == ss@.take(k as int),
        decreases ss.len() - k,
    {
        r.push(ss[k]);
        k = k + 1;
        proof {
            assert(r@ =~= ss@.take(k as int));
        }
    }
    proof {
        assert(ss@.take(ss@.len() as int) =~= ss@);
    }
    r
}

proof fn lemma_stone_cells_on_lattice(ss: Seq<Stone>, side: Side)
    requires
        forall|m: int| 0 <= m < ss.len() ==> (#[trigger] ss[m]).i < 18 && ss[m].j < 18,
    ensures
        forall|m: int| 0 <= m < stone_cells(ss, side).len() ==> on_lattice(#[trigger] stone_cells(ss, side)[m]),
    decreases ss.len(),
{
    if ss.len() > 0 {
        let rest = ss.drop_last();
        assert forall|m: int| 0 <= m < rest.len() implies (#[trigger] rest[m]).i < 18 && rest[m].j < 18 by {
            assert(rest[m] == ss[m]);
        }
        lemma_stone_cells_on_lattice(rest, side);
        let last = ss[ss.len() - 1];
        let sc = stone_cells(rest, side);
        if last.side == side {
            assert(stone_cells(ss, side) == sc.push((last.i, last.j)));
            assert forall|m: int| 0 <= m < sc.len() + 1 implies on_lattice(#[trigger] sc.push((last.i, last.j))[m]) by {
                if m < sc.len() {
                    assert(sc.push((last.i, last.j))[m] == sc[m]);
                }
            }
        } else {
            assert(stone_cells(ss, side) == sc);
        }
    }
}

/// The cells of the stones of `side`.
pub fn stones_of(ss: &Vec<Stone>, side: Side) -> (r: Vec<Cell>)
    ensures
        r@ == stone_cells(ss@, side),
{
    let mut r: Vec<Cell> = Vec::new();
    let mut k: usize = 0;
    while k < ss.len()
        invariant
            k <= ss.len(),
            r@ == stone_cells(ss@.take(k as int), side),
        decreases ss.len() - k,
    {
        proof {
            assert(ss@.take(k as int + 1).drop_last() =~= ss@.take(k as int));
        }
        if ss[k].side == side {
            r.push((ss[k].i, ss[k].j));
        }
        k = k + 1;
    }
    proof {
        assert(ss@.take(k as int) =~= ss@);
    }
    r
}

} // verus!
