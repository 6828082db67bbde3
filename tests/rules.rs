use watchtower_defence::game::{Game, GameError, SelectedDraught, Watchtower};
use watchtower_defence::logic::{
    CheckersMoveType, Draught, GameLogic, GamePhase, Side, Stone, Turn,
};

fn sorted(mut v: Vec<(usize, usize)>) -> Vec<(usize, usize)> {
    v.sort();
    v
}

fn logic_with(entries: &[(GamePhase, Turn)]) -> GameLogic {
    let mut logic = GameLogic::new();
    for (p, t) in entries {
        logic.log(*p, *t);
    }
    logic
}

fn draught(i: usize, j: usize, n: i8, side: Side) -> Draught {
    Draught { i, j, n, side }
}

fn stone(i: usize, j: usize, side: Side) -> Stone {
    Stone { i, j, side }
}

fn both_towers() -> Vec<Watchtower> {
    vec![
        Watchtower { i: 15, j: 15, side: Side::White },
        Watchtower { i: 3, j: 15, side: Side::Black },
    ]
}

fn ring_around_pocket() -> Vec<(usize, usize)> {
    // the boundary of the box [4, 8] x [4, 6]; the pocket is (5..=7, 5)
    let mut ring = Vec::new();
    for i in 4..=8 {
        ring.push((i, 4));
        ring.push((i, 6));
    }
    ring.push((4, 5));
    ring.push((8, 5));
    ring
}

fn game_in(phase: GamePhase, turn: Turn) -> Game {
    let mut g = Game::new();
    g.phase = phase;
    g.turn = turn;
    g.watchtowers = both_towers();
    g.logic = logic_with(&[
        (GamePhase::PlaceWatchtower, Turn::White),
        (GamePhase::PlaceWatchtower, Turn::Black),
    ]);
    g
}

#[test]
fn scenario_a_white_confirms_watchtower() {
    let mut g = Game::new();
    assert_eq!(g.start(), Ok(()));
    assert_eq!(g.phase, GamePhase::PlaceWatchtower);
    assert_eq!(g.confirm_watchtower_at(10, 10), Ok(()));
    let white: Vec<&Draught> = g.draughts.iter().filter(|d| d.side == Side::White).collect();
    assert_eq!(white.len(), 8);
    let expected = [
        (9, 9, 0),
        (9, 10, 1),
        (9, 11, 2),
        (10, 9, 3),
        (10, 11, 5),
        (11, 9, 6),
        (11, 10, 7),
        (11, 11, 8),
    ];
    for (d, (i, j, n)) in white.iter().zip(expected.iter()) {
        assert_eq!((d.i, d.j, d.n), (*i, *j, *n));
    }
    let offsets: [(i64, i64); 12] = [
        (1, 1),
        (1, 0),
        (1, -1),
        (1, -2),
        (0, 1),
        (0, -2),
        (-1, 1),
        (-1, -2),
        (-2, 1),
        (-2, 0),
        (-2, -1),
        (-2, -2),
    ];
    assert_eq!(g.stones.len(), 12);
    for (s, (di, dj)) in g.stones.iter().zip(offsets.iter()) {
        assert_eq!(s.side, Side::White);
        assert_eq!((s.i as i64, s.j as i64), (10 + di, 10 + dj));
    }
    assert_eq!(g.watchtowers, vec![Watchtower { i: 10, j: 10, side: Side::White }]);
    assert_eq!(g.turn, Turn::Black);
    assert_eq!(g.phase, GamePhase::PlaceWatchtower);
}

#[test]
fn scenario_b_black_confirms_watchtower() {
    let mut g = Game::new();
    g.start().unwrap();
    g.confirm_watchtower_at(10, 10).unwrap();
    // too close to White's tower, and inside the edge band
    assert_eq!(g.confirm_watchtower_at(12, 12), Err(GameError::InvalidPlacement));
    assert_eq!(g.confirm_watchtower_at(2, 10), Err(GameError::InvalidPlacement));
    assert_eq!(g.confirm_watchtower_at(16, 5), Err(GameError::InvalidPlacement));
    assert_eq!(g.turn, Turn::Black);
    assert_eq!(g.draughts.len(), 8);
    assert_eq!(g.confirm_watchtower_at(4, 4), Ok(()));
    assert_eq!(g.turn, Turn::White);
    assert_eq!(g.phase, GamePhase::MoveDraught);
    assert_eq!(g.draughts.len(), 16);
    assert_eq!(g.stones.len(), 24);
    assert_eq!(g.watchtowers.len(), 2);
}

#[test]
fn watchtower_exactly_five_cells_away_is_accepted() {
    let mut g = Game::new();
    g.start().unwrap();
    g.confirm_watchtower_at(10, 10).unwrap();
    assert!(!g.watchtower_site_ok(13, 13));
    assert!(g.watchtower_site_ok(10, 15));
    assert!(g.watchtower_site_ok(13, 14));
    assert_eq!(g.confirm_watchtower_at(10, 15), Ok(()));
}

#[test]
fn scenario_c_lone_draught_has_eight_moves() {
    let logic = GameLogic::new();
    let (targets, kinds, taken, removals) = logic.legal_draught_moves(
        Turn::White,
        (5, 5),
        vec![],
        vec![(5, 5)],
        vec![],
        vec![],
        (0, 0),
        (0, 0),
    );
    assert_eq!(targets.len(), 8);
    assert!(kinds.iter().all(|k| *k == CheckersMoveType::Regular));
    assert!(taken.iter().all(|c| *c == (0, 0)));
    assert!(removals.is_empty());
    assert_eq!(
        targets,
        vec![(5, 6), (5, 4), (4, 5), (6, 5), (4, 6), (6, 6), (4, 4), (6, 4)]
    );
}

#[test]
fn scenario_d_capture_over_black_draught() {
    let logic = GameLogic::new();
    let (targets, kinds, taken, _) = logic.legal_draught_moves(
        Turn::White,
        (5, 5),
        vec![(6, 6)],
        vec![(5, 5)],
        vec![],
        vec![],
        (0, 0),
        (0, 0),
    );
    let k = targets.iter().position(|t| *t == (7, 7)).unwrap();
    assert_eq!(kinds[k], CheckersMoveType::DraughtTakeOver);
    assert_eq!(taken[k], (6, 6));
    assert!(!targets.contains(&(6, 6)));
    assert_eq!(targets.len(), 8);
}

#[test]
fn scenario_e_enclosed_black_draught_is_taken_over() {
    let mut g = game_in(GamePhase::PlaceGoPiece, Turn::White);
    for (i, j) in ring_around_pocket() {
        if (i, j) != (8, 5) {
            g.stones.push(stone(i, j, Side::White));
        }
    }
    g.draughts = vec![draught(6, 5, 3, Side::Black), draught(15, 14, 0, Side::White)];
    assert_eq!(g.place_stone(8, 5), Ok(()));
    assert_eq!(g.draughts.len(), 2);
    assert_eq!(g.draughts[0], draught(6, 5, 2, Side::White));
    assert_eq!(g.draughts[1], draught(15, 14, 0, Side::White));
    assert_eq!(g.stones.len(), 12);
    assert_eq!(g.turn, Turn::Black);
    assert_eq!(g.phase, GamePhase::MoveDraught);
}

#[test]
fn unenclosed_pocket_takes_nothing_over() {
    let mut g = game_in(GamePhase::PlaceGoPiece, Turn::White);
    for (i, j) in ring_around_pocket() {
        if (i, j) != (8, 5) && (i, j) != (8, 4) {
            g.stones.push(stone(i, j, Side::White));
        }
    }
    g.draughts = vec![draught(6, 5, 3, Side::Black)];
    assert_eq!(g.place_stone(12, 12), Ok(()));
    assert_eq!(g.draughts[0], draught(6, 5, 3, Side::Black));
}

#[test]
fn enclosed_black_stone_is_removed() {
    let mut g = game_in(GamePhase::PlaceGoPiece, Turn::White);
    for (i, j) in ring_around_pocket() {
        if (i, j) != (8, 5) {
            g.stones.push(stone(i, j, Side::White));
        }
    }
    g.stones.push(stone(6, 5, Side::Black));
    g.stones.push(stone(12, 12, Side::Black));
    assert_eq!(g.place_stone(8, 5), Ok(()));
    assert!(!g.stones.contains(&stone(6, 5, Side::Black)));
    assert!(g.stones.contains(&stone(12, 12, Side::Black)));
    assert!(g.stones.contains(&stone(8, 5, Side::White)));
    assert_eq!(g.stones.len(), 13);
}

#[test]
fn scenario_f_nuke_of_watchtower_ends_game() {
    let mut g = game_in(GamePhase::MoveDraught, Turn::White);
    g.draughts = vec![draught(4, 15, 0, Side::White), draught(10, 10, 0, Side::Black)];
    g.stones = vec![stone(3, 14, Side::Black), stone(9, 9, Side::White)];
    assert_eq!(g.select_draught(0), Ok(()));
    assert_eq!(g.selected, SelectedDraught { n: Some(0) });
    assert_eq!(g.invoke_nuke(), Ok(()));
    assert_eq!(g.watchtowers, vec![Watchtower { i: 15, j: 15, side: Side::White }]);
    assert_eq!(g.draughts, vec![draught(10, 10, 0, Side::Black)]);
    assert_eq!(g.stones, vec![stone(9, 9, Side::White)]);
    assert_eq!(g.phase, GamePhase::GameOver);
    assert_eq!(g.winner, Some(Side::White));
    // the game stays over
    assert_eq!(g.place_stone(1, 1), Err(GameError::WrongPhase));
    assert_eq!(g.select_draught(0), Err(GameError::WrongPhase));
    assert_eq!(g.commit_draught_move(10, 11), Err(GameError::WrongPhase));
    assert_eq!(g.invoke_nuke(), Err(GameError::WrongPhase));
    assert_eq!(g.confirm_watchtower_at(10, 10), Err(GameError::WrongPhase));
    g.check_game_termination();
    assert_eq!(g.phase, GamePhase::GameOver);
    assert_eq!(g.winner, Some(Side::White));
}

#[test]
fn nuke_of_both_watchtowers_reports_white() {
    let mut g = game_in(GamePhase::MoveDraught, Turn::Black);
    g.watchtowers = vec![
        Watchtower { i: 8, j: 8, side: Side::White },
        Watchtower { i: 9, j: 9, side: Side::Black },
    ];
    g.draughts = vec![draught(8, 9, 4, Side::Black)];
    g.select_draught(4).unwrap();
    g.invoke_nuke().unwrap();
    assert!(g.watchtowers.is_empty());
    assert!(g.draughts.is_empty());
    assert_eq!(g.phase, GamePhase::GameOver);
    assert_eq!(g.winner, Some(Side::White));
}

#[test]
fn nuke_away_from_towers_passes_the_turn_on() {
    let mut g = game_in(GamePhase::MoveDraught, Turn::White);
    g.draughts = vec![draught(0, 0, 1, Side::White), draught(1, 1, 2, Side::Black), draught(2, 2, 3, Side::Black)];
    g.select_draught(1).unwrap();
    g.invoke_nuke().unwrap();
    assert_eq!(g.draughts, vec![draught(2, 2, 3, Side::Black)]);
    assert_eq!(g.phase, GamePhase::PlaceGoPiece);
    assert_eq!(g.turn, Turn::White);
    assert_eq!(g.selected.n, None);
}

#[test]
fn move_targets_avoid_draughts_and_opposing_territory() {
    // Black territory: the filled and cleaned box around the pocket
    let black: Vec<(usize, usize)> = ring_around_pocket();
    let logic = GameLogic::new();
    let (targets, kinds, taken, removals) = logic.legal_draught_moves(
        Turn::White,
        (9, 7),
        vec![(9, 8)],
        vec![(9, 7), (10, 7)],
        vec![],
        black,
        (0, 0),
        (0, 0),
    );
    assert_eq!(removals.len(), 15);
    for t in &targets {
        assert!(*t != (9, 8) && *t != (10, 7) && *t != (9, 7));
        assert!(!(5..=8).contains(&t.0) || !(5..=6).contains(&t.1));
    }
    // the black draught above can be jumped
    let k = targets.iter().position(|t| *t == (9, 9)).unwrap();
    assert_eq!(kinds[k], CheckersMoveType::DraughtTakeOver);
    assert_eq!(taken[k], (9, 8));
    // (8, 6) is Black territory
    assert!(!targets.contains(&(8, 6)));
}

#[test]
fn captures_jump_two_cells_over_an_opposing_draught() {
    let logic = GameLogic::new();
    let around: Vec<(usize, usize)> = vec![(4, 4), (4, 5), (4, 6), (5, 4), (5, 6), (6, 4), (6, 5), (6, 6)];
    let (targets, kinds, taken, _) = logic.legal_draught_moves(
        Turn::Black,
        (5, 5),
        vec![(5, 5)],
        around.clone(),
        vec![],
        vec![],
        (0, 0),
        (0, 0),
    );
    assert_eq!(targets.len(), 8);
    for k in 0..targets.len() {
        assert_eq!(kinds[k], CheckersMoveType::DraughtTakeOver);
        let (ti, tj) = (targets[k].0 as i64, targets[k].1 as i64);
        let (ci, cj) = (taken[k].0 as i64, taken[k].1 as i64);
        assert_eq!((ti - 5, tj - 5), (2 * (ci - 5), 2 * (cj - 5)));
        assert!(around.contains(&taken[k]));
    }
}

#[test]
fn draught_in_corner_has_three_moves() {
    let logic = GameLogic::new();
    let (targets, _, _, _) =
        logic.legal_draught_moves(Turn::White, (0, 0), vec![], vec![(0, 0)], vec![], vec![], (0, 0), (0, 0));
    assert_eq!(targets, vec![(0, 1), (1, 0), (1, 1)]);
    let (targets, _, _, _) =
        logic.legal_draught_moves(Turn::White, (18, 18), vec![], vec![(18, 18)], vec![], vec![], (0, 0), (0, 0));
    assert_eq!(targets, vec![(18, 17), (17, 18), (17, 17)]);
}

#[test]
fn single_opposing_stone_rules_out_one_diagonal() {
    let logic = GameLogic::new();
    let (targets, _, _, _) = logic.legal_draught_moves(
        Turn::White,
        (5, 5),
        vec![],
        vec![(5, 5)],
        vec![],
        vec![(5, 4)],
        (0, 0),
        (0, 0),
    );
    assert_eq!(targets.len(), 7);
    assert!(!targets.contains(&(6, 4)));
    let (targets, _, _, _) = logic.legal_draught_moves(
        Turn::White,
        (5, 5),
        vec![],
        vec![(5, 5)],
        vec![],
        vec![(5, 5)],
        (0, 0),
        (0, 0),
    );
    assert_eq!(targets.len(), 7);
    assert!(!targets.contains(&(6, 6)));
}

#[test]
fn two_opposing_stones_rule_out_a_side() {
    let logic = GameLogic::new();
    let (targets, _, _, _) = logic.legal_draught_moves(
        Turn::White,
        (5, 5),
        vec![],
        vec![(5, 5)],
        vec![],
        vec![(5, 4), (4, 4)],
        (0, 0),
        (0, 0),
    );
    assert_eq!(sorted(targets), vec![(4, 5), (4, 6), (5, 6), (6, 5), (6, 6)]);
    let (targets, _, _, _) = logic.legal_draught_moves(
        Turn::White,
        (5, 5),
        vec![],
        vec![(5, 5)],
        vec![],
        vec![(5, 5), (5, 4)],
        (0, 0),
        (0, 0),
    );
    assert_eq!(sorted(targets), vec![(4, 4), (4, 5), (4, 6), (5, 4), (5, 6)]);
}

#[test]
fn small_clusters_make_no_region() {
    let logic = GameLogic::new();
    let (regions, removals) = logic.legal_go_moves(
        Turn::White,
        vec![],
        vec![],
        vec![(3, 3), (4, 4), (10, 10)],
        vec![],
        (0, 0),
        (0, 0),
    );
    assert!(regions.is_empty());
    assert!(removals.is_empty());
    let (regions, _) =
        logic.legal_go_moves(Turn::Black, vec![], vec![], vec![], vec![], (0, 0), (0, 0));
    assert!(regions.is_empty());
}

#[test]
fn three_connected_stones_make_a_region() {
    let logic = GameLogic::new();
    let line = vec![(5, 5), (6, 5), (7, 5)];
    let (regions, removals) =
        logic.legal_go_moves(Turn::White, vec![], vec![], line.clone(), vec![], (0, 0), (0, 0));
    assert_eq!(regions.len(), 1);
    // the clean-up keeps no cell of a straight line
    assert!(regions[0].is_empty());
    assert_eq!(sorted(removals), line);
    let diagonal = vec![(2, 2), (3, 3), (4, 4)];
    let (regions, removals) =
        logic.legal_go_moves(Turn::White, vec![], vec![], diagonal.clone(), vec![], (0, 0), (0, 0));
    assert_eq!(regions.len(), 1);
    assert_eq!(sorted(removals), diagonal);
}

#[test]
fn enclosed_pocket_is_filled_and_cleaned() {
    let logic = GameLogic::new();
    let (regions, removals) = logic.legal_go_moves(
        Turn::Black,
        vec![],
        vec![],
        vec![],
        ring_around_pocket(),
        (0, 0),
        (0, 0),
    );
    assert_eq!(regions.len(), 1);
    let mut expected = Vec::new();
    for i in 5..=8 {
        for j in 5..=6 {
            expected.push((i, j));
        }
    }
    assert_eq!(sorted(regions[0].clone()), expected);
    let mut boxed = Vec::new();
    for i in 4..=8 {
        for j in 4..=6 {
            boxed.push((i, j));
        }
    }
    assert_eq!(sorted(removals), boxed);
}

#[test]
fn placed_stone_joins_a_region_of_three() {
    let mut g = game_in(GamePhase::PlaceGoPiece, Turn::Black);
    g.stones = vec![stone(5, 5, Side::Black), stone(6, 6, Side::Black)];
    g.place_stone(7, 7).unwrap();
    let logic = GameLogic::new();
    let (regions, removals) = logic.legal_go_moves(
        Turn::Black,
        vec![],
        vec![],
        vec![],
        vec![(5, 5), (6, 6), (7, 7)],
        (0, 0),
        (0, 0),
    );
    assert_eq!(regions.len(), 1);
    assert_eq!(sorted(removals), vec![(5, 5), (6, 6), (7, 7)]);
    assert_eq!(g.stones.len(), 3);
}

#[test]
fn expand_from_absorbs_an_enclosed_pocket() {
    let logic = GameLogic::new();
    let ring = ring_around_pocket();
    let grown = logic.expand_from((6, 5), ring.clone());
    let mut expected = ring.clone();
    expected.extend(vec![(5, 5), (6, 5), (7, 5)]);
    assert_eq!(sorted(grown), sorted(expected));
    // a flood from outside reaches all four edges and hands the region back
    let same = logic.expand_from((0, 0), ring.clone());
    assert_eq!(same, ring);
}

#[test]
fn fill_region_reports_growth() {
    let logic = GameLogic::new();
    let (filled, grew) = logic.fill_region(ring_around_pocket());
    assert!(grew);
    assert_eq!(filled.len(), 15);
    let (filled, grew) = logic.fill_region(vec![(5, 5), (6, 5), (7, 5)]);
    assert!(!grew);
    assert_eq!(sorted(filled), vec![(5, 5), (6, 5), (7, 5)]);
}

#[test]
fn find_region_skips_visited_stones() {
    let logic = GameLogic::new();
    let stones = vec![(5, 5), (6, 5), (7, 5)];
    let (region, visited, removals) = logic.find_region((5, 5), stones.clone(), vec![]);
    assert!(region.is_some());
    assert_eq!(sorted(visited), stones);
    assert_eq!(sorted(removals), stones);
    let (region, visited, removals) = logic.find_region((5, 5), stones.clone(), vec![(6, 5)]);
    assert!(region.is_none());
    assert_eq!(sorted(visited), vec![(5, 5), (6, 5)]);
    assert!(removals.is_empty());
    let (region, visited, _) = logic.find_region((1, 1), stones.clone(), vec![]);
    assert!(region.is_none());
    assert!(visited.is_empty());
}

#[test]
fn next_state_follows_the_protocol() {
    let cases = [
        ((GamePhase::PlaceWatchtower, Turn::Black), (GamePhase::MoveDraught, Turn::White)),
        ((GamePhase::PlaceWatchtower, Turn::White), (GamePhase::PlaceWatchtower, Turn::Black)),
        ((GamePhase::PlaceGoPiece, Turn::White), (GamePhase::MoveDraught, Turn::Black)),
        ((GamePhase::PlaceGoPiece, Turn::Black), (GamePhase::MoveDraught, Turn::White)),
        ((GamePhase::MoveDraught, Turn::Black), (GamePhase::PlaceGoPiece, Turn::Black)),
        ((GamePhase::Initialize, Turn::Black), (GamePhase::PlaceWatchtower, Turn::Black)),
        ((GamePhase::GameOver, Turn::White), (GamePhase::PlaceWatchtower, Turn::White)),
    ];
    for (logged, next) in cases {
        let logic = logic_with(&[(GamePhase::Initialize, Turn::White), logged]);
        assert_eq!(logic.next_state(), next);
        assert_eq!(logic.len(), 2);
    }
}

#[test]
fn sides_alternate_every_pair() {
    let mut g = Game::new();
    g.start().unwrap();
    g.confirm_watchtower_at(5, 5).unwrap();
    g.confirm_watchtower_at(13, 13).unwrap();
    let mut acting = Vec::new();
    for _ in 0..4 {
        assert_eq!(g.phase, GamePhase::MoveDraught);
        let side = g.turn;
        acting.push(side);
        let (n, i, j) = match side {
            Turn::White => (0, 4, 4),
            Turn::Black => (8, 14, 14),
        };
        g.select_draught(n).unwrap();
        let d = g.draughts.iter().find(|d| d.n == n && d.side == match side {
            Turn::White => Side::White,
            Turn::Black => Side::Black,
        }).copied().unwrap();
        // step back and forth between the corner cell and the draught's own
        let target = if (d.i, d.j) == (i, j) {
            match side {
                Turn::White => (i + 1, j + 1),
                Turn::Black => (i - 1, j - 1),
            }
        } else {
            (i, j)
        };
        assert_eq!(g.commit_draught_move(target.0, target.1), Ok(()));
        assert_eq!(g.phase, GamePhase::PlaceGoPiece);
        assert_eq!(g.turn, side);
        let si = match side {
            Turn::White => 0,
            Turn::Black => 17,
        };
        g.place_stone(si, acting.len()).unwrap();
    }
    assert_eq!(acting, vec![Turn::White, Turn::Black, Turn::White, Turn::Black]);
    let stats = g.logic.stats(vec![], vec![], vec![], vec![]);
    assert_eq!(stats.n_moves, 8);
}

#[test]
fn stats_count_moves_territory_and_draughts() {
    let logic = logic_with(&[
        (GamePhase::PlaceWatchtower, Turn::White),
        (GamePhase::PlaceWatchtower, Turn::Black),
        (GamePhase::MoveDraught, Turn::White),
    ]);
    let stats = logic.stats(vec![(1, 1)], vec![(2, 2), (3, 3)], vec![], ring_around_pocket());
    assert_eq!(stats.n_moves, 1);
    assert_eq!(stats.black_territory, 8);
    assert_eq!(stats.white_territory, 0);
    assert_eq!(stats.white_draughts, 2);
    assert_eq!(stats.black_draughts, 1);
}

#[test]
fn refused_actions_leave_the_game_as_it_was() {
    let mut g = Game::new();
    assert_eq!(g.place_stone(1, 1), Err(GameError::WrongPhase));
    assert_eq!(g.confirm_watchtower_at(10, 10), Err(GameError::WrongPhase));
    g.start().unwrap();
    assert_eq!(g.start(), Err(GameError::WrongPhase));

    let mut g = game_in(GamePhase::PlaceGoPiece, Turn::White);
    assert_eq!(g.place_stone(18, 3), Err(GameError::InvalidPlacement));
    g.watchtowers.pop();
    assert_eq!(g.place_stone(3, 3), Err(GameError::InvariantViolation));
    assert!(g.stones.is_empty());

    let mut g = game_in(GamePhase::MoveDraught, Turn::White);
    g.draughts = vec![draught(5, 5, 0, Side::White), draught(7, 7, 1, Side::Black)];
    assert_eq!(g.commit_draught_move(5, 6), Err(GameError::MissingEntity));
    assert_eq!(g.invoke_nuke(), Err(GameError::MissingEntity));
    assert_eq!(g.select_draught(1), Err(GameError::MissingEntity));
    assert_eq!(g.select_draught(0), Ok(()));
    assert_eq!(g.commit_draught_move(5, 7), Err(GameError::IllegalMove));
    assert_eq!(g.commit_draught_move(6, 6), Ok(()));
    assert_eq!(g.draughts[0], draught(6, 6, 0, Side::White));
    assert_eq!(g.logic.len(), 3);
}

#[test]
fn committed_capture_takes_the_draught_over() {
    let mut g = game_in(GamePhase::MoveDraught, Turn::White);
    g.draughts = vec![
        draught(5, 5, 0, Side::White),
        draught(6, 6, 0, Side::Black),
        draught(1, 1, 1, Side::White),
    ];
    g.select_draught(0).unwrap();
    assert_eq!(g.preview_draught_move(7, 7), Ok(CheckersMoveType::DraughtTakeOver));
    assert_eq!(g.preview_draught_move(4, 4), Ok(CheckersMoveType::Regular));
    assert_eq!(g.preview_draught_move(8, 8), Err(GameError::IllegalMove));
    assert_eq!(g.commit_draught_move(7, 7), Ok(()));
    assert_eq!(
        g.draughts,
        vec![
            draught(7, 7, 0, Side::White),
            draught(6, 6, 3, Side::White),
            draught(1, 1, 1, Side::White),
        ]
    );
    assert_eq!(g.selected.n, None);
    assert_eq!(g.phase, GamePhase::PlaceGoPiece);
}

#[test]
fn cluster_search_steps_every_way_from_first_row() {
    let logic = GameLogic::new();
    let stones = vec![(0, 3), (0, 4), (0, 5), (1, 6)];
    let (regions, removals) =
        logic.legal_go_moves(Turn::White, vec![], vec![], stones.clone(), vec![], (0, 0), (0, 0));
    assert_eq!(regions.len(), 1);
    assert_eq!(sorted(removals), stones);
    let diagonal = vec![(0, 5), (1, 6), (2, 7)];
    let (region, visited, removals) = logic.find_region((0, 5), diagonal.clone(), vec![]);
    assert!(region.is_some());
    assert_eq!(sorted(visited), diagonal);
    assert_eq!(sorted(removals), diagonal);
}

#[test]
fn one_component_gives_one_region() {
    let logic = GameLogic::new();
    let stones = vec![(0, 5), (0, 6), (0, 7), (1, 8), (1, 9), (1, 10)];
    let (regions, removals) =
        logic.legal_go_moves(Turn::Black, vec![], vec![], vec![], stones.clone(), (0, 0), (0, 0));
    assert_eq!(regions.len(), 1);
    assert_eq!(sorted(removals), stones);
}

#[test]
fn capture_may_not_jump_over_opposing_territory() {
    let mut block = Vec::new();
    for i in 4..=7 {
        for j in 4..=7 {
            block.push((i, j));
        }
    }
    let logic = GameLogic::new();
    let (regions, _) =
        logic.legal_go_moves(Turn::Black, vec![], vec![], vec![], block.clone(), (0, 0), (0, 0));
    let mut expected = Vec::new();
    for i in 5..=7 {
        for j in 5..=7 {
            expected.push((i, j));
        }
    }
    assert_eq!(sorted(regions[0].clone()), expected);
    let (targets, _, _, _) = logic.legal_draught_moves(
        Turn::White,
        (6, 8),
        vec![(7, 7)],
        vec![(6, 8)],
        vec![],
        block,
        (0, 0),
        (0, 0),
    );
    assert!(!targets.contains(&(8, 6)));
    // without the stones the same jump is offered
    let (targets, kinds, taken, _) = logic.legal_draught_moves(
        Turn::White,
        (6, 8),
        vec![(7, 7)],
        vec![(6, 8)],
        vec![],
        vec![],
        (0, 0),
        (0, 0),
    );
    let k = targets.iter().position(|t| *t == (8, 6)).unwrap();
    assert_eq!(kinds[k], CheckersMoveType::DraughtTakeOver);
    assert_eq!(taken[k], (7, 7));
}

#[test]
fn enclosure_step_keeps_region_cells_on_the_last_row() {
    let logic = GameLogic::new();
    let mut region = ring_around_pocket();
    region.push((18, 5));
    let grown = logic.expand_from((6, 5), region.clone());
    assert!(grown.contains(&(18, 5)));
    let mut expected = region.clone();
    expected.extend(vec![(5, 5), (6, 5), (7, 5)]);
    assert_eq!(sorted(grown), sorted(expected));
    let (filled, grew) = logic.fill_region(region);
    assert!(grew);
    assert!(filled.contains(&(18, 5)));
    assert_eq!(filled.len(), 16);
}

#[test]
fn enclosure_flood_stays_on_the_board() {
    let logic = GameLogic::new();
    let region = vec![(16, 4), (16, 5), (16, 6), (17, 4), (17, 6)];
    let grown = logic.expand_from((18, 5), region.clone());
    let mut expected = region.clone();
    expected.push((17, 5));
    assert_eq!(sorted(grown), sorted(expected));
}

#[test]
fn region_cells_come_in_row_major_order() {
    let logic = GameLogic::new();
    let mut stones = ring_around_pocket();
    stones.reverse();
    let (regions, removals) =
        logic.legal_go_moves(Turn::White, vec![], vec![], stones, vec![], (0, 0), (0, 0));
    assert_eq!(regions[0], sorted(regions[0].clone()));
    assert_eq!(removals, sorted(removals.clone()));
    let (again, _) = logic.legal_go_moves(
        Turn::White,
        vec![(1, 1)],
        vec![],
        ring_around_pocket(),
        vec![(2, 2)],
        (3, 3),
        (4, 4),
    );
    assert_eq!(regions, again);
}
