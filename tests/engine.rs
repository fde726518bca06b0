use minesweeper::board::{generate, Board, GenerateError};
use minesweeper::game::{CellChange, Game, Phase, PlayerAction, Visibility};
use rand::rngs::StdRng;
use rand::SeedableRng;

fn board_with_mines(size: usize, mines: &[(usize, usize)]) -> Board {
    let mut cells = vec![false; size * size];
    for &(r, c) in mines {
        cells[r * size + c] = true;
    }
    Board::from_mines(size, cells)
}

fn recount(board: &Board, r: usize, c: usize) -> u8 {
    let n = board.size() as i64;
    let mut k = 0;
    for dr in -1i64..=1 {
        for dc in -1i64..=1 {
            if dr == 0 && dc == 0 {
                continue;
            }
            let (rr, cc) = (r as i64 + dr, c as i64 + dc);
            if rr >= 0 && rr < n && cc >= 0 && cc < n && board.has_mine(rr as usize, cc as usize) {
                k += 1;
            }
        }
    }
    k
}

fn coords(ch: &[CellChange]) -> Vec<(usize, usize)> {
    let mut v: Vec<(usize, usize)> = ch.iter().map(|e| (e.row, e.col)).collect();
    v.sort();
    v
}

#[test]
fn generate_places_exact_mine_count() {
    for &(n, m) in &[(1usize, 0usize), (2, 3), (3, 1), (5, 12), (10, 10), (10, 99), (16, 40)] {
        for seed in 0..5u64 {
            let mut rng = StdRng::seed_from_u64(seed);
            let b = generate(n, m, &mut rng).ok().unwrap();
            assert_eq!(b.size(), n);
            assert_eq!(b.mine_count(), m);
            let mut mined = 0;
            for r in 0..n {
                for c in 0..n {
                    if b.has_mine(r, c) {
                        mined += 1;
                    }
                }
            }
            assert_eq!(mined, m);
            assert_eq!(n * n - mined, n * n - m);
        }
    }
}

#[test]
fn generate_counts_match_brute_force() {
    for seed in 0..10u64 {
        let mut rng = StdRng::seed_from_u64(seed);
        let b = generate(8, 20, &mut rng).ok().unwrap();
        for r in 0..8 {
            for c in 0..8 {
                assert_eq!(b.adjacent_mine_count(r, c), recount(&b, r, c));
            }
        }
    }
}

#[test]
fn generate_is_deterministic_for_a_seed() {
    let a = generate(9, 15, &mut StdRng::seed_from_u64(42)).ok().unwrap();
    let b = generate(9, 15, &mut StdRng::seed_from_u64(42)).ok().unwrap();
    for r in 0..9 {
        for c in 0..9 {
            assert_eq!(a.has_mine(r, c), b.has_mine(r, c));
        }
    }
}

#[test]
fn generate_rejects_bad_configuration() {
    let mut rng = StdRng::seed_from_u64(1);
    assert!(matches!(generate(0, 0, &mut rng), Err(GenerateError::InvalidConfiguration)));
    assert!(matches!(generate(3, 9, &mut rng), Err(GenerateError::InvalidConfiguration)));
    assert!(matches!(generate(3, 10, &mut rng), Err(GenerateError::InvalidConfiguration)));
    assert!(matches!(generate(1, 1, &mut rng), Err(GenerateError::InvalidConfiguration)));
    assert!(generate(3, 8, &mut rng).is_ok());
}

#[test]
fn nearly_full_board_leaves_one_free_cell() {
    let mut rng = StdRng::seed_from_u64(3);
    let b = generate(4, 15, &mut rng).ok().unwrap();
    assert_eq!(b.mine_count(), 15);
    let free: Vec<(usize, usize)> =
        (0..16).map(|i| (i / 4, i % 4)).filter(|&(r, c)| !b.has_mine(r, c)).collect();
    assert_eq!(free.len(), 1);
    let mut g = Game::new(b);
    let ch = g.reveal_cell(free[0].0, free[0].1);
    assert_eq!(ch.len(), 1);
    assert_eq!(g.phase(), Phase::Won);
}

#[test]
fn from_mines_counts_neighbours() {
    let b = board_with_mines(3, &[(1, 1)]);
    for r in 0..3 {
        for c in 0..3 {
            let expected = if (r, c) == (1, 1) { 0 } else { 1 };
            assert_eq!(b.adjacent_mine_count(r, c), expected);
        }
    }
    let b = board_with_mines(3, &[(0, 0), (0, 1), (1, 0)]);
    assert_eq!(b.adjacent_mine_count(1, 1), 3);
    assert_eq!(b.adjacent_mine_count(0, 0), 2);
    assert_eq!(b.adjacent_mine_count(2, 2), 0);
    assert_eq!(b.adjacent_mine_count(2, 0), 1);
    assert_eq!(b.adjacent_mine_count(5, 5), 0);
    assert!(!b.has_mine(5, 0));
}

#[test]
fn single_mine_reveal_corner_does_not_cascade() {
    let mut g = Game::new(board_with_mines(3, &[(1, 1)]));
    let ch = g.reveal_cell(0, 0);
    assert_eq!(
        ch,
        vec![CellChange {
            row: 0,
            col: 0,
            visibility: Visibility::Revealed,
            has_mine: false,
            adjacent_mines: 1
        }]
    );
    assert_eq!(g.phase(), Phase::InProgress);
    assert_eq!(g.cell_visibility(0, 1), Some(Visibility::Concealed));
}

#[test]
fn single_mine_reveal_all_safe_wins() {
    let mut g = Game::new(board_with_mines(3, &[(1, 1)]));
    let safe = [(0, 0), (0, 1), (0, 2), (1, 0), (1, 2), (2, 0), (2, 1), (2, 2)];
    for (i, &(r, c)) in safe.iter().enumerate() {
        let ch = g.reveal_cell(r, c);
        assert_eq!(ch.len(), 1);
        if i + 1 < safe.len() {
            assert_eq!(g.phase(), Phase::InProgress);
        }
    }
    assert_eq!(g.phase(), Phase::Won);
    assert_eq!(g.cell_visibility(1, 1), Some(Visibility::Concealed));
}

#[test]
fn single_mine_reveal_mine_loses() {
    let mut g = Game::new(board_with_mines(3, &[(1, 1)]));
    g.reveal_cell(0, 0);
    let ch = g.reveal_cell(1, 1);
    assert_eq!(g.phase(), Phase::Lost);
    assert_eq!(ch[0].row, 1);
    assert_eq!(ch[0].col, 1);
    assert_eq!(ch[0].visibility, Visibility::Revealed);
    assert!(ch[0].has_mine);
    assert_eq!(coords(&ch), vec![(1, 1)]);
    assert_eq!(g.cell_visibility(0, 0), Some(Visibility::Revealed));
    assert_eq!(g.cell_visibility(0, 1), Some(Visibility::Concealed));
}

#[test]
fn loss_reports_every_mine_and_touches_no_other_cell() {
    let mut g = Game::new(board_with_mines(4, &[(0, 0), (2, 3), (3, 1)]));
    g.toggle_flag(2, 3);
    let ch = g.reveal_cell(3, 1);
    assert_eq!(g.phase(), Phase::Lost);
    assert_eq!((ch[0].row, ch[0].col), (3, 1));
    assert_eq!(ch.len(), 3);
    assert_eq!((ch[1].row, ch[1].col, ch[1].visibility), (0, 0, Visibility::Concealed));
    assert_eq!((ch[2].row, ch[2].col, ch[2].visibility), (2, 3, Visibility::Flagged));
    assert!(ch.iter().all(|e| e.has_mine));
    for r in 0..4 {
        for c in 0..4 {
            let v = g.cell_visibility(r, c).unwrap();
            if (r, c) == (3, 1) {
                assert_eq!(v, Visibility::Revealed);
            } else if (r, c) == (2, 3) {
                assert_eq!(v, Visibility::Flagged);
            } else {
                assert_eq!(v, Visibility::Concealed);
            }
        }
    }
}

#[test]
fn corner_mines_on_four_by_four_center_touches_a_corner() {
    // (1, 1) and (2, 2) each touch a corner mine, so neither cascades.
    for &(r, c) in &[(1usize, 1usize), (2, 2)] {
        let mut g = Game::new(board_with_mines(4, &[(0, 0), (0, 3), (3, 0), (3, 3)]));
        let ch = g.reveal_cell(r, c);
        assert_eq!(coords(&ch), vec![(r, c)]);
        assert_eq!(ch[0].adjacent_mines, 1);
        assert_eq!(g.phase(), Phase::InProgress);
    }
}

#[test]
fn corner_mines_center_reveal_cascades() {
    for &(r, c) in &[(2usize, 2usize), (3, 3)] {
        let mut g = Game::new(board_with_mines(6, &[(0, 0), (0, 5), (5, 0), (5, 5)]));
        let ch = g.reveal_cell(r, c);
        let mut expected: Vec<(usize, usize)> = Vec::new();
        for rr in 0..6 {
            for cc in 0..6 {
                if !matches!((rr, cc), (0, 0) | (0, 5) | (5, 0) | (5, 5)) {
                    expected.push((rr, cc));
                }
            }
        }
        assert_eq!(coords(&ch), expected);
        assert_eq!((ch[0].row, ch[0].col), (r, c));
        assert!(ch.iter().all(|e| e.visibility == Visibility::Revealed && !e.has_mine));
        assert_eq!(g.phase(), Phase::Won);
    }
}

#[test]
fn cascade_stops_at_numbered_boundary() {
    // mines along column 2 of a 5x5 board split it in two
    let mut g = Game::new(board_with_mines(5, &[(0, 2), (1, 2), (2, 2), (3, 2), (4, 2)]));
    let ch = g.reveal_cell(0, 0);
    let mut expected: Vec<(usize, usize)> = Vec::new();
    for r in 0..5 {
        for c in 0..2 {
            expected.push((r, c));
        }
    }
    assert_eq!(coords(&ch), expected);
    assert_eq!(g.phase(), Phase::InProgress);
    assert_eq!(g.cell_visibility(0, 3), Some(Visibility::Concealed));
    for e in &ch {
        let want = if e.col == 1 { if e.row == 0 || e.row == 4 { 2 } else { 3 } } else { 0 };
        assert_eq!(e.adjacent_mines, want);
    }
}

#[test]
fn cascade_skips_flagged_cells() {
    let mut g = Game::new(board_with_mines(3, &[(2, 2)]));
    g.toggle_flag(0, 2);
    let ch = g.reveal_cell(0, 0);
    assert!(!coords(&ch).contains(&(0, 2)));
    assert_eq!(g.cell_visibility(0, 2), Some(Visibility::Flagged));
    assert_eq!(g.phase(), Phase::InProgress);
    let ch = g.toggle_flag(0, 2);
    assert_eq!(ch.len(), 1);
    assert_eq!(ch[0].visibility, Visibility::Concealed);
    g.reveal_cell(0, 2);
    assert_eq!(g.phase(), Phase::Won);
}

#[test]
fn flags_on_mines_do_not_block_win() {
    let mut g = Game::new(board_with_mines(2, &[(0, 0)]));
    g.toggle_flag(0, 0);
    g.reveal_cell(0, 1);
    g.reveal_cell(1, 0);
    assert_eq!(g.phase(), Phase::InProgress);
    g.reveal_cell(1, 1);
    assert_eq!(g.phase(), Phase::Won);
}

#[test]
fn reveal_twice_is_a_no_op() {
    let mut g = Game::new(board_with_mines(3, &[(1, 1)]));
    assert_eq!(g.reveal_cell(0, 0).len(), 1);
    assert!(g.reveal_cell(0, 0).is_empty());
    assert_eq!(g.phase(), Phase::InProgress);
    assert_eq!(g.cell_visibility(0, 0), Some(Visibility::Revealed));
}

#[test]
fn actions_after_game_end_are_no_ops() {
    let mut g = Game::new(board_with_mines(3, &[(1, 1)]));
    g.reveal_cell(1, 1);
    assert_eq!(g.phase(), Phase::Lost);
    assert!(g.reveal_cell(0, 0).is_empty());
    assert!(g.toggle_flag(0, 0).is_empty());
    assert!(g.apply(PlayerAction::Reveal { row: 2, col: 2 }).is_empty());
    assert_eq!(g.cell_visibility(0, 0), Some(Visibility::Concealed));
    assert_eq!(g.phase(), Phase::Lost);

    let mut g = Game::new(board_with_mines(1, &[]));
    g.reveal_cell(0, 0);
    assert_eq!(g.phase(), Phase::Won);
    assert!(g.toggle_flag(0, 0).is_empty());
    assert_eq!(g.phase(), Phase::Won);
}

#[test]
fn flagged_cell_cannot_be_revealed() {
    let mut g = Game::new(board_with_mines(3, &[(1, 1)]));
    let ch = g.toggle_flag(1, 1);
    assert_eq!(ch.len(), 1);
    assert_eq!(ch[0].visibility, Visibility::Flagged);
    assert!(g.reveal_cell(1, 1).is_empty());
    assert_eq!(g.phase(), Phase::InProgress);
    assert_eq!(g.cell_visibility(1, 1), Some(Visibility::Flagged));
}

#[test]
fn toggle_flag_on_revealed_cell_is_a_no_op() {
    let mut g = Game::new(board_with_mines(3, &[(1, 1)]));
    g.reveal_cell(0, 0);
    assert!(g.toggle_flag(0, 0).is_empty());
    assert_eq!(g.cell_visibility(0, 0), Some(Visibility::Revealed));
}

#[test]
fn out_of_bounds_actions_are_no_ops() {
    let mut g = Game::new(board_with_mines(3, &[(1, 1)]));
    assert!(g.reveal_cell(3, 0).is_empty());
    assert!(g.reveal_cell(0, 7).is_empty());
    assert!(g.toggle_flag(9, 9).is_empty());
    assert_eq!(g.cell_visibility(3, 3), None);
    assert_eq!(g.phase(), Phase::InProgress);
}

#[test]
fn one_cell_board_is_won_by_one_reveal() {
    let mut g = Game::new(board_with_mines(1, &[]));
    let ch = g.apply(PlayerAction::Reveal { row: 0, col: 0 });
    assert_eq!(ch.len(), 1);
    assert_eq!(ch[0].adjacent_mines, 0);
    assert_eq!(g.phase(), Phase::Won);
}

#[test]
fn apply_dispatches_both_actions() {
    let mut g = Game::new(board_with_mines(3, &[(1, 1)]));
    let ch = g.apply(PlayerAction::ToggleFlag { row: 2, col: 2 });
    assert_eq!((ch[0].row, ch[0].col, ch[0].visibility), (2, 2, Visibility::Flagged));
    let ch = g.apply(PlayerAction::Reveal { row: 0, col: 1 });
    assert_eq!((ch[0].row, ch[0].col, ch[0].visibility), (0, 1, Visibility::Revealed));
    assert_eq!(g.board().size(), 3);
}

#[test]
fn random_game_cascade_matches_flood_fill() {
    for seed in 0..10u64 {
        let b = generate(9, 10, &mut StdRng::seed_from_u64(seed)).ok().unwrap();
        // find a zero-count safe cell
        let start = (0..81).map(|i| (i / 9, i % 9)).find(|&(r, c)| {
            !b.has_mine(r, c) && b.adjacent_mine_count(r, c) == 0
        });
        let (r0, c0) = match start {
            Some(p) => p,
            None => continue,
        };
        // an independent flood fill
        let mut seen = vec![false; 81];
        let mut stack = vec![(r0, c0)];
        seen[r0 * 9 + c0] = true;
        while let Some((r, c)) = stack.pop() {
            if b.adjacent_mine_count(r, c) != 0 {
                continue;
            }
            for dr in -1i64..=1 {
                for dc in -1i64..=1 {
                    let (rr, cc) = (r as i64 + dr, c as i64 + dc);
                    if rr < 0 || rr >= 9 || cc < 0 || cc >= 9 {
                        continue;
                    }
                    let (rr, cc) = (rr as usize, cc as usize);
                    if !seen[rr * 9 + cc] && !b.has_mine(rr, cc) {
                        seen[rr * 9 + cc] = true;
                        stack.push((rr, cc));
                    }
                }
            }
        }
        let expected: Vec<(usize, usize)> =
            (0..81).filter(|&i| seen[i]).map(|i| (i / 9, i % 9)).collect();
        let mut g = Game::new(b);
        let ch = g.reveal_cell(r0, c0);
        assert_eq!(ch.len(), expected.len());
        assert_eq!(coords(&ch), expected);
    }
}
