use std::collections::HashSet;

use go_rules::{Board, Captures, Color, GameConfig, GameState, Move, Point, RuleViolation};

fn pt(x: usize, y: usize) -> Point {
    Point::new(x, y).unwrap()
}

fn place(color: Color, x: usize, y: usize) -> Move {
    Move { color, point: Some(pt(x, y)) }
}

fn pass(color: Color) -> Move {
    Move { color, point: None }
}

#[test]
fn fresh_session_has_black_to_move_and_nothing_captured() {
    for size in [1usize, 5, 9, 19, 25] {
        let game = GameState::new(GameConfig { size, ..Default::default() });
        assert_eq!(game.to_move(), Color::Black);
        assert_eq!(game.captures(), Captures { black: 0, white: 0 });
        assert_eq!(game.consecutive_passes(), 0);
        assert_eq!(game.move_count(), 0);
        let snapshot = game.board_snapshot();
        assert_eq!(snapshot.size, size);
        assert!(snapshot.intersections.iter().all(|cell| cell.is_none()));
    }
}

#[test]
fn fresh_board_territory_is_fully_neutral() {
    for size in [1usize, 5, 9, 19] {
        let board = Board::new(size);
        let territory = board.territory_map();
        assert_eq!(territory.len(), size * size);
        assert!(territory.iter().all(|owner| owner.is_none()));
    }
}

#[test]
fn superko_allows_repetition_when_disabled() {
    let config = GameConfig { size: 5, superko: false, ..Default::default() };
    let mut game = GameState::new(config.clone());

    let mut board = Board::new(config.size);
    let idx = |x: usize, y: usize| pt(x, y).to_index(config.size);

    board.set(idx(0, 1), Some(Color::Black));
    board.set(idx(2, 1), Some(Color::Black));
    board.set(idx(1, 2), Some(Color::Black));
    board.set(idx(1, 1), Some(Color::White));

    let ko_target = pt(1, 0);
    let (board_after, _) = board.after_play(Color::Black, ko_target).unwrap();

    let mut history = HashSet::new();
    history.insert(board.position_key(Color::Black));
    history.insert(board_after.position_key(Color::White));

    game.set_internal_state(board, history, Color::Black);

    let outcome = game
        .play(Move { color: Color::Black, point: Some(ko_target) })
        .unwrap();
    assert_eq!(outcome.last_move.captured, vec![pt(1, 1)]);
}

#[test]
fn suicide_leaves_the_board_untouched() {
    let config = GameConfig { size: 5, ..Default::default() };
    let mut game = GameState::new(config.clone());

    let mut board = Board::new(config.size);
    let idx = |x: usize, y: usize| pt(x, y).to_index(config.size);
    board.set(idx(1, 0), Some(Color::White));
    board.set(idx(0, 1), Some(Color::White));
    board.set(idx(2, 1), Some(Color::White));
    board.set(idx(1, 2), Some(Color::White));

    let mut history = HashSet::new();
    history.insert(board.position_key(Color::Black));
    game.set_internal_state(board, history, Color::Black);

    let before = game.board_snapshot();
    let err = game.play(place(Color::Black, 1, 1)).unwrap_err();
    assert!(matches!(err, RuleViolation::Suicide { .. }));

    let after = game.board_snapshot();
    assert_eq!(before.intersections, after.intersections);
    assert!(after.intersections[pt(1, 1).to_index(config.size)].is_none());
    assert_eq!(game.captures(), Captures { black: 0, white: 0 });
}

#[test]
fn capture_that_frees_a_liberty_is_not_suicide() {
    let size = 3usize;
    let mut board = Board::new(size);
    let idx = |x: usize, y: usize| pt(x, y).to_index(size);

    // Two white stones each keep (0,0) as their last liberty. Black's play
    // there has no liberty of its own before the captures resolve, yet it
    // is legal because removing the white stones frees its liberties.
    board.set(idx(1, 0), Some(Color::White));
    board.set(idx(0, 1), Some(Color::White));
    board.set(idx(2, 0), Some(Color::Black));
    board.set(idx(1, 1), Some(Color::Black));
    board.set(idx(0, 2), Some(Color::Black));

    let (after, mut captured) = board.after_play(Color::Black, pt(0, 0)).unwrap();
    captured.sort_by_key(|p| (p.y, p.x));
    assert_eq!(captured, vec![pt(1, 0), pt(0, 1)]);
    assert_eq!(after.get(pt(0, 0)), Some(Color::Black));
    assert_eq!(after.get(pt(1, 0)), None);
    assert_eq!(after.get(pt(0, 1)), None);
}

#[test]
fn one_move_can_capture_two_separate_groups() {
    let size = 3usize;
    let mut board = Board::new(size);
    let idx = |x: usize, y: usize| pt(x, y).to_index(size);

    board.set(idx(0, 0), Some(Color::White));
    board.set(idx(2, 0), Some(Color::White));
    board.set(idx(0, 1), Some(Color::Black));
    board.set(idx(2, 1), Some(Color::Black));

    let (after, mut captured) = board.after_play(Color::Black, pt(1, 0)).unwrap();
    captured.sort_by_key(|p| (p.y, p.x));
    assert_eq!(captured, vec![pt(0, 0), pt(2, 0)]);
    assert_eq!(after.get(pt(0, 0)), None);
    assert_eq!(after.get(pt(2, 0)), None);
    assert_eq!(after.get(pt(1, 0)), Some(Color::Black));
}

#[test]
fn read_only_operations_are_idempotent() {
    let mut game = GameState::new(GameConfig { size: 5, ..Default::default() });
    game.play(place(Color::Black, 2, 2)).unwrap();

    let moves_a = game.legal_moves();
    let moves_b = game.legal_moves();
    assert_eq!(moves_a, moves_b);

    let score_a = game.score();
    let score_b = game.score();
    assert_eq!(score_a, score_b);
}

#[test]
fn two_passes_finish_the_game_without_touching_the_board() {
    let mut game = GameState::new(GameConfig { size: 5, ..Default::default() });
    game.play(place(Color::Black, 2, 2)).unwrap();
    let before = game.board_snapshot();
    let captures_before = game.captures();

    let first = game.play(pass(Color::White)).unwrap();
    assert!(!first.game_over);
    assert_eq!(first.consecutive_passes, 1);

    let second = game.play(pass(Color::Black)).unwrap();
    assert!(second.game_over);
    assert_eq!(second.consecutive_passes, 2);

    assert_eq!(game.board_snapshot().intersections, before.intersections);
    assert_eq!(game.captures(), captures_before);

    // The engine stays permissive after game end: further moves are taken.
    let third = game.play(place(Color::White, 0, 0)).unwrap();
    assert_eq!(third.consecutive_passes, 0);
    assert!(!third.game_over);
}

#[test]
fn out_of_bounds_fails_on_either_axis_for_any_size() {
    for size in [5usize, 9, 19] {
        let mut game = GameState::new(GameConfig { size, ..Default::default() });
        let before = game.board_snapshot();

        let err = game.play(place(Color::Black, size, 0)).unwrap_err();
        assert!(matches!(err, RuleViolation::OutOfBounds { .. }));

        let err = game.play(place(Color::Black, 0, size)).unwrap_err();
        assert!(matches!(err, RuleViolation::OutOfBounds { .. }));

        let err = game.play(place(Color::Black, 200, 200)).unwrap_err();
        assert!(matches!(err, RuleViolation::OutOfBounds { .. }));

        assert_eq!(game.board_snapshot().intersections, before.intersections);
        assert_eq!(game.move_count(), 0);
    }
}

#[test]
fn occupied_and_wrong_player_are_reported() {
    let mut game = GameState::new(GameConfig { size: 5, ..Default::default() });

    let err = game.play(place(Color::White, 0, 0)).unwrap_err();
    assert!(matches!(err, RuleViolation::WrongPlayer { expected: Color::Black }));

    game.play(place(Color::Black, 0, 0)).unwrap();
    let err = game.play(place(Color::White, 0, 0)).unwrap_err();
    assert!(matches!(err, RuleViolation::Occupied { .. }));
}

#[test]
fn violation_kinds_have_stable_names() {
    let p = pt(0, 0);
    assert_eq!(RuleViolation::Occupied { point: p }.as_str(), "occupied");
    assert_eq!(RuleViolation::Suicide { point: p }.as_str(), "suicide");
    assert_eq!(RuleViolation::SuperKo.as_str(), "superko");
    assert_eq!(RuleViolation::OutOfBounds { point: p }.as_str(), "out_of_bounds");
    assert_eq!(
        RuleViolation::WrongPlayer { expected: Color::Black }.as_str(),
        "wrong_player"
    );
}

#[test]
fn scoring_counts_territory_captures_and_komi() {
    // A lone black stone on a 3x3 board owns all eight empty points.
    let mut game = GameState::new(GameConfig { size: 3, ..Default::default() });
    game.play(place(Color::Black, 1, 1)).unwrap();

    let score = game.score();
    assert_eq!(score.territory_black, 8);
    assert_eq!(score.territory_white, 0);
    assert_eq!(score.black_score, 16);
    assert_eq!(score.white_score, 13);
    assert_eq!(score.komi, 13);
}

#[test]
fn capture_updates_tallies_and_board() {
    let config = GameConfig { size: 5, ..Default::default() };
    let mut game = GameState::new(config.clone());
    let mut board = Board::new(config.size);
    let idx = |x: usize, y: usize| pt(x, y).to_index(config.size);

    board.set(idx(0, 1), Some(Color::Black));
    board.set(idx(2, 1), Some(Color::Black));
    board.set(idx(1, 2), Some(Color::Black));
    board.set(idx(1, 1), Some(Color::White));

    let mut history = HashSet::new();
    history.insert(board.position_key(Color::Black));
    game.set_internal_state(board, history, Color::Black);

    let outcome = game.play(place(Color::Black, 1, 0)).unwrap();
    assert_eq!(outcome.captures, Captures { black: 1, white: 0 });
    assert_eq!(outcome.last_move.captured, vec![pt(1, 1)]);
    assert!(outcome.board.intersections[pt(1, 1).to_index(config.size)].is_none());
    assert_eq!(
        outcome.board.intersections[pt(1, 0).to_index(config.size)],
        Some(Color::Black)
    );
}

#[test]
fn legal_moves_cover_the_empty_board_and_shrink_after_a_move() {
    let mut game = GameState::new(GameConfig { size: 5, ..Default::default() });
    assert_eq!(game.legal_moves().len(), 25);

    let outcome = game.play(place(Color::Black, 2, 2)).unwrap();
    assert_eq!(outcome.legal_moves.len(), 24);
    assert!(!outcome.legal_moves.contains(&pt(2, 2)));
}

#[test]
fn the_single_point_of_a_one_line_board_is_suicide() {
    let game = GameState::new(GameConfig { size: 1, ..Default::default() });
    assert!(game.legal_moves().is_empty());
}

#[test]
fn move_history_numbers_moves_from_one() {
    let mut game = GameState::new(GameConfig { size: 5, ..Default::default() });
    game.play(place(Color::Black, 0, 0)).unwrap();
    game.play(pass(Color::White)).unwrap();
    game.play(place(Color::Black, 1, 1)).unwrap();

    let history = game.move_history();
    assert_eq!(history.len(), 3);
    assert_eq!(history[0].move_number, 1);
    assert_eq!(history[0].mv, place(Color::Black, 0, 0));
    assert_eq!(history[1].move_number, 2);
    assert_eq!(history[1].mv, pass(Color::White));
    assert_eq!(history[2].move_number, 3);
    assert!(history.iter().all(|record| record.captured.is_empty()));
}

#[test]
fn hash_returns_to_its_old_value_when_a_stone_is_removed() {
    let size = 5usize;
    let mut board = Board::new(size);
    let initial = board.hash();
    let idx = pt(2, 3).to_index(size);

    board.set(idx, Some(Color::Black));
    let with_stone = board.hash();
    assert_ne!(initial, with_stone);

    board.set(idx, Some(Color::White));
    assert_ne!(with_stone, board.hash());

    board.set(idx, None);
    assert_eq!(initial, board.hash());
}

#[test]
fn boards_of_one_size_share_identical_keys() {
    // The key table is generated from a fixed seed, so two boards of the
    // same size agree on every position key.
    let a = Board::new(9);
    let b = Board::new(9);
    assert_eq!(a.position_key(Color::Black), b.position_key(Color::Black));
    assert_eq!(a.position_key(Color::White), b.position_key(Color::White));
    assert_ne!(
        a.position_key(Color::Black),
        a.position_key(Color::White)
    );
}

#[test]
fn group_search_reports_stones_and_liberties() {
    let size = 3usize;
    let mut board = Board::new(size);
    let idx = |x: usize, y: usize| pt(x, y).to_index(size);

    board.set(idx(0, 0), Some(Color::Black));
    board.set(idx(1, 0), Some(Color::Black));
    board.set(idx(2, 0), Some(Color::White));

    let group = board.group_at(idx(0, 0));
    let mut stones = group.stones.clone();
    stones.sort();
    assert_eq!(stones, vec![idx(0, 0), idx(1, 0)]);
    let mut liberties = group.liberties.clone();
    liberties.sort();
    assert_eq!(liberties, vec![idx(0, 1), idx(1, 1)]);

    let empty = board.group_at(idx(1, 1));
    assert!(empty.stones.is_empty());
    assert!(empty.liberties.is_empty());
}

#[test]
fn neighbors_follow_the_grid_edges() {
    let size = 3usize;
    let board = Board::new(size);

    let mut corner = board.neighbors(0);
    corner.sort();
    assert_eq!(corner, vec![1, 3]);

    let mut edge = board.neighbors(1);
    edge.sort();
    assert_eq!(edge, vec![0, 2, 4]);

    let mut center = board.neighbors(4);
    center.sort();
    assert_eq!(center, vec![1, 3, 5, 7]);
}

#[test]
fn points_map_to_indices_and_back() {
    let size = 19usize;
    for (x, y) in [(0usize, 0usize), (18, 0), (0, 18), (18, 18), (3, 11)] {
        let p = pt(x, y);
        let idx = p.to_index(size);
        assert_eq!(idx, y * size + x);
        assert_eq!(Point::from_index(idx, size), p);
    }
    assert!(Point::new(300, 0).is_err());
    assert!(Point::new(0, 1000).is_err());
}
