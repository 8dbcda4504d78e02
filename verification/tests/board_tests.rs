use minesweeper::board::{Board, Content, Difficulty, Square, Visibility};
use minesweeper::rng::seeded_rng;

fn brute_force_adjacent(board: &Board, col: usize, row: usize) -> u8 {
    let (w, h) = board.size;
    let mut count: u8 = 0;
    for dc in [-1i64, 0, 1] {
        for dr in [-1i64, 0, 1] {
            if dc == 0 && dr == 0 {
                continue;
            }
            let nc = col as i64 + dc;
            let nr = row as i64 + dr;
            if nc >= 0 && nr >= 0 && (nc as usize) < w && (nr as usize) < h {
                if matches!(
                    board.squares[nc as usize + nr as usize * w].content,
                    Content::Bomb
                ) {
                    count += 1;
                }
            }
        }
    }
    count
}

fn assert_adjacency_exact(board: &Board) {
    let (w, h) = board.size;
    for row in 0..h {
        for col in 0..w {
            match board.squares[col + row * w].content {
                Content::Bomb => {}
                Content::Empty(n) => {
                    assert_eq!(
                        n,
                        brute_force_adjacent(board, col, row),
                        "adjacency wrong at ({col},{row})"
                    );
                }
            }
        }
    }
}

#[test]
fn generate_exact_bomb_count_easy() {
    let mut rng = seeded_rng(7);
    let board = Board::generate((10, 10), Difficulty::Easy, &mut rng);
    assert_eq!(board.bombs(), 10 * 10 * 10 / 100);
    let mines = board
        .squares
        .iter()
        .filter(|s| matches!(s.content, Content::Bomb))
        .count();
    assert_eq!(mines, board.bombs());
}

#[test]
fn generate_exact_bomb_count_all_difficulties() {
    for (difficulty, percent) in [
        (Difficulty::Debug, 1),
        (Difficulty::Easy, 10),
        (Difficulty::Medium, 15),
        (Difficulty::Hard, 20),
    ] {
        let mut rng = seeded_rng(99);
        let board = Board::generate((13, 7), difficulty, &mut rng);
        assert_eq!(board.bombs(), 13 * 7 * percent / 100);
    }
}

#[test]
fn generate_adjacency_counts_are_exact() {
    let mut rng = seeded_rng(12345);
    let board = Board::generate((16, 9), Difficulty::Hard, &mut rng);
    assert_adjacency_exact(&board);
}

#[test]
fn generate_starts_covered_and_unflagged() {
    let mut rng = seeded_rng(3);
    let board = Board::generate((5, 5), Difficulty::Medium, &mut rng);
    assert_eq!(board.flagged(), 0);
    assert!(board
        .squares
        .iter()
        .all(|s| matches!(s.visibility, Visibility::Covered)));
}

#[test]
fn forced_single_bomb_line_board() {
    // A 1x3 board with its only bomb at position 0: the middle square
    // touches it, the far square does not.
    let bombs = vec![(0usize, 0usize)];
    let board = Board::with_bombs((3, 1), &bombs);
    assert_eq!(board.bombs(), 1);
    assert!(matches!(board.squares[0].content, Content::Bomb));
    assert!(matches!(board.squares[1].content, Content::Empty(1)));
    assert!(matches!(board.squares[2].content, Content::Empty(0)));
}

#[test]
fn with_bombs_adjacency_matches_brute_force() {
    let bombs = vec![(0usize, 0usize), (2, 1), (3, 3), (1, 3)];
    let board = Board::with_bombs((4, 4), &bombs);
    assert_eq!(board.bombs(), 4);
    assert_adjacency_exact(&board);
}

#[test]
fn flag_then_unflag_round_trip() {
    let bombs = vec![(0usize, 0usize)];
    let board = &mut Board::with_bombs((3, 1), &bombs);
    assert!(board.flag_square((1, 0)));
    assert!(matches!(
        board.square((1, 0)).visibility,
        Visibility::Flagged
    ));
    assert_eq!(board.flagged(), 1);
    assert!(board.flag_square((1, 0)));
    assert!(matches!(
        board.square((1, 0)).visibility,
        Visibility::Covered
    ));
    assert_eq!(board.flagged(), 0);
}

#[test]
fn flag_refused_at_cap() {
    // One bomb, so the cap is one flag: a second flag is refused and the
    // counters are left alone.
    let bombs = vec![(0usize, 0usize)];
    let board = &mut Board::with_bombs((3, 1), &bombs);
    assert!(board.flag_square((1, 0)));
    assert_eq!(board.flagged(), 1);
    let committed = board.flag_square((2, 0));
    assert!(!committed);
    assert_eq!(board.flagged(), 1);
    assert!(matches!(
        board.square((2, 0)).visibility,
        Visibility::Covered
    ));
    // Unflagging is still allowed at the cap.
    assert!(board.flag_square((1, 0)));
    assert_eq!(board.flagged(), 0);
}

#[test]
fn flag_cap_over_random_toggles() {
    let mut rng = seeded_rng(2024);
    let board = &mut Board::generate((8, 8), Difficulty::Hard, &mut rng);
    let cap = board.bombs();
    let mut x: usize = 5;
    for _ in 0..500 {
        // A simple deterministic scramble walks the board.
        x = x.wrapping_mul(1103515245).wrapping_add(12345);
        let pos = (x % 8, (x / 8) % 8);
        board.flag_square(pos);
        assert!(board.flagged() <= cap);
    }
}

#[test]
fn flag_on_uncovered_square_is_refused() {
    let bombs = vec![(0usize, 0usize)];
    let board = &mut Board::with_bombs((3, 1), &bombs);
    assert!(!board.uncover_square((1, 0)));
    assert!(!board.flag_square((1, 0)));
    assert!(matches!(
        board.square((1, 0)).visibility,
        Visibility::Uncovered
    ));
}

#[test]
fn won_when_exactly_the_bombs_are_flagged() {
    let bombs = vec![(0usize, 0usize), (2, 0)];
    let board = &mut Board::with_bombs((3, 1), &bombs);
    assert!(!board.won());
    assert!(board.flag_square((0, 0)));
    assert!(!board.won());
    assert!(board.flag_square((2, 0)));
    assert!(board.won());
    // Unflag a bomb, flag the empty square instead: no longer won.
    assert!(board.flag_square((2, 0)));
    assert!(board.flag_square((1, 0)));
    assert!(!board.won());
}

#[test]
fn uncover_bomb_reports_it() {
    let bombs = vec![(0usize, 0usize)];
    let board = &mut Board::with_bombs((3, 1), &bombs);
    assert!(board.uncover_square((0, 0)));
    assert!(matches!(
        board.square((0, 0)).visibility,
        Visibility::Uncovered
    ));
}

#[test]
fn uncover_numbered_square_uncovers_only_it() {
    let bombs = vec![(0usize, 0usize)];
    let board = &mut Board::with_bombs((3, 1), &bombs);
    assert!(!board.uncover_square((1, 0)));
    assert!(matches!(
        board.square((1, 0)).visibility,
        Visibility::Uncovered
    ));
    assert!(matches!(
        board.square((0, 0)).visibility,
        Visibility::Covered
    ));
    assert!(matches!(
        board.square((2, 0)).visibility,
        Visibility::Covered
    ));
}

#[test]
fn uncover_is_a_no_op_on_flagged_and_uncovered() {
    let bombs = vec![(0usize, 0usize)];
    let board = &mut Board::with_bombs((3, 1), &bombs);
    assert!(board.flag_square((0, 0)));
    // Revealing a flagged bomb does nothing, and reports no bomb.
    assert!(!board.uncover_square((0, 0)));
    assert!(matches!(
        board.square((0, 0)).visibility,
        Visibility::Flagged
    ));
    // Revealing an uncovered square again does nothing.
    assert!(!board.uncover_square((2, 0)));
    assert!(!board.uncover_square((2, 0)));
}

#[test]
fn flood_fill_uncovers_component_and_border_not_bombs() {
    // 3x3, bomb in the corner (2,2). The zero-count region is 4-connected
    // to (0,0); the numbered squares at its rim are uncovered too, the
    // bomb is not.
    let bombs = vec![(2usize, 2usize)];
    let board = &mut Board::with_bombs((3, 3), &bombs);
    assert!(!board.uncover_square((0, 0)));
    for row in 0..3 {
        for col in 0..3 {
            let square = board.square((col, row));
            if col == 2 && row == 2 {
                assert!(matches!(square.visibility, Visibility::Covered));
                assert!(matches!(square.content, Content::Bomb));
            } else {
                assert!(
                    matches!(square.visibility, Visibility::Uncovered),
                    "({col},{row}) should be uncovered"
                );
            }
        }
    }
}

#[test]
fn flood_fill_does_not_pass_through_flags() {
    // 1x3 with the bomb far right: flagging the middle square blocks the
    // flood started on the left from reaching anything beyond it.
    let bombs = vec![(4usize, 0usize)];
    let board = &mut Board::with_bombs((5, 1), &bombs);
    assert!(board.flag_square((1, 0)));
    assert!(!board.uncover_square((0, 0)));
    assert!(matches!(
        board.square((0, 0)).visibility,
        Visibility::Uncovered
    ));
    assert!(matches!(
        board.square((1, 0)).visibility,
        Visibility::Flagged
    ));
    assert!(matches!(
        board.square((2, 0)).visibility,
        Visibility::Covered
    ));
    assert!(matches!(
        board.square((3, 0)).visibility,
        Visibility::Covered
    ));
}

#[test]
fn flood_fill_stops_at_numbered_squares() {
    // 5x1, bomb at the right end: counts are 0 0 0 1 bomb. Flooding from
    // the left uncovers the zeros and the 1, not the bomb.
    let bombs = vec![(4usize, 0usize)];
    let board = &mut Board::with_bombs((5, 1), &bombs);
    assert!(!board.uncover_square((0, 0)));
    for col in 0..4 {
        assert!(matches!(
            board.square((col, 0)).visibility,
            Visibility::Uncovered
        ));
    }
    assert!(matches!(
        board.square((4, 0)).visibility,
        Visibility::Covered
    ));
}

#[test]
fn square_mut_writes_through() {
    let bombs = vec![(0usize, 0usize)];
    let board = &mut Board::with_bombs((3, 1), &bombs);
    *board.square_mut((2, 0)) = Square::new(Content::Empty(5));
    assert!(matches!(board.square((2, 0)).content, Content::Empty(5)));
}

#[test]
fn difficulty_from_name_all_tiers() {
    assert_eq!(Difficulty::from_name("debug"), Some(Difficulty::Debug));
    assert_eq!(Difficulty::from_name("easy"), Some(Difficulty::Easy));
    assert_eq!(Difficulty::from_name("medium"), Some(Difficulty::Medium));
    assert_eq!(Difficulty::from_name("hard"), Some(Difficulty::Hard));
    assert_eq!(Difficulty::from_name("impossible"), None);
    assert_eq!(Difficulty::from_name(""), None);
    assert_eq!(Difficulty::from_name("Easy"), None);
}

#[test]
fn difficulty_percentages() {
    assert_eq!(Difficulty::Debug.percentage_bombs(), 1);
    assert_eq!(Difficulty::Easy.percentage_bombs(), 10);
    assert_eq!(Difficulty::Medium.percentage_bombs(), 15);
    assert_eq!(Difficulty::Hard.percentage_bombs(), 20);
}
