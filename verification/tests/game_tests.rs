use minesweeper::board::{Content, Visibility};
use minesweeper::cell::Color;
use minesweeper::game::{board_to_screen_coords, Event, Game, Key};
use minesweeper::rng::seeded_rng;
use minesweeper::screen::Command;

fn new_game(seed: u64) -> Game {
    let mut rng = seeded_rng(seed);
    // A 12x6 terminal gives a 5x4 board.
    Game::new((12, 6), minesweeper::board::Difficulty::Debug, &mut rng)
}

#[test]
fn board_coords_map_into_the_border() {
    assert_eq!(board_to_screen_coords((0, 0)), (1, 1));
    assert_eq!(board_to_screen_coords((3, 2)), (7, 3));
}

#[test]
fn new_game_sizes_board_to_terminal() {
    let game = new_game(1);
    assert_eq!(game.board.size, (5, 4));
    assert_eq!(game.term_size, (12, 6));
    assert_eq!(game.selection, (2, 2));
    // Debug density on 20 squares: floor(0.01 * 20) = 0 bombs.
    assert_eq!(game.board.bombs(), 0);
}

#[test]
fn movement_wraps_around_the_board() {
    let game = &mut new_game(2);
    game.selection = (0, 0);
    assert!(game.handle_event(Event::Key(Key::Up)));
    assert_eq!(game.selection, (0, 3));
    assert!(game.handle_event(Event::Key(Key::Down)));
    assert_eq!(game.selection, (0, 0));
    assert!(game.handle_event(Event::Key(Key::Left)));
    assert_eq!(game.selection, (4, 0));
    assert!(game.handle_event(Event::Key(Key::Right)));
    assert_eq!(game.selection, (0, 0));
    assert!(game.handle_event(Event::Key(Key::Down)));
    assert_eq!(game.selection, (0, 1));
}

#[test]
fn quit_and_resize_end_the_session() {
    let game = &mut new_game(3);
    assert!(!game.handle_event(Event::Key(Key::Quit)));
    assert!(!game.handle_event(Event::Resize));
    assert!(game.handle_event(Event::Other));
    assert!(game.handle_event(Event::Key(Key::Other)));
}

#[test]
fn flag_key_flags_the_selection() {
    let game = &mut new_game(4);
    // Debug density yields no bombs, so flagging is refused at the cap of
    // zero flags.
    assert!(game.handle_event(Event::Key(Key::Flag)));
    assert_eq!(game.board.flagged(), 0);
    let mut rng = seeded_rng(5);
    let game = &mut Game::new((12, 6), minesweeper::board::Difficulty::Hard, &mut rng);
    assert!(game.board.bombs() > 0);
    assert!(game.handle_event(Event::Key(Key::Flag)));
    assert_eq!(game.board.flagged(), 1);
    assert!(matches!(
        game.board.square(game.selection).visibility,
        Visibility::Flagged
    ));
}

#[test]
fn revealing_a_bomb_ends_the_session() {
    let mut rng = seeded_rng(6);
    let game = &mut Game::new((20, 10), minesweeper::board::Difficulty::Hard, &mut rng);
    let (w, h) = game.board.size;
    let mut bomb_pos = None;
    let mut empty_pos = None;
    for row in 0..h {
        for col in 0..w {
            match game.board.square((col, row)).content {
                Content::Bomb => bomb_pos = Some((col, row)),
                Content::Empty(_) => empty_pos = Some((col, row)),
            }
        }
    }
    game.selection = empty_pos.expect("some empty square");
    assert!(game.handle_event(Event::Key(Key::Reveal)));
    game.selection = bomb_pos.expect("some bomb");
    assert!(!game.handle_event(Event::Key(Key::Reveal)));
}

#[test]
fn rendered_frame_shows_border_status_and_board() {
    let game = &mut new_game(7);
    game.status_message = String::from("hi");
    game.render();
    let (w, h) = game.term_size;
    // Corners.
    assert_eq!(game.screen.get(0, 0).content, '┏');
    assert_eq!(game.screen.get(w - 1, 0).content, '┓');
    assert_eq!(game.screen.get(0, h - 1).content, '┗');
    assert_eq!(game.screen.get(w - 1, h - 1).content, '┛');
    // Edges.
    assert_eq!(game.screen.get(4, 0).content, '━');
    assert_eq!(game.screen.get(4, h - 1).content, '━');
    assert_eq!(game.screen.get(0, 2).content, '┃');
    assert_eq!(game.screen.get(w - 1, 2).content, '┃');
    // Status text sits on the top border.
    assert_eq!(game.screen.get(1, 0).content, 'h');
    assert_eq!(game.screen.get(2, 0).content, 'i');
    assert_eq!(game.screen.get(3, 0).content, '━');
    // Covered board squares show as dots at odd columns.
    assert_eq!(game.screen.get(1, 1).content, '.');
    assert_eq!(game.screen.get(3, 1).content, '.');
    // The blank column between board columns stays blank.
    assert_eq!(game.screen.get(2, 1).content, ' ');
}

#[test]
fn flush_parks_cursor_on_selection() {
    let game = &mut new_game(8);
    game.render();
    let out = game.flush_screen();
    let expected_cursor = board_to_screen_coords(game.selection);
    assert_eq!(
        out.last(),
        Some(&Command::MoveTo(expected_cursor.0, expected_cursor.1))
    );
    // The three commands before it reset the style.
    let n = out.len();
    assert_eq!(out[n - 4], Command::SetFg(Color::Reset));
    assert_eq!(out[n - 3], Command::SetBg(Color::Reset));
}

#[test]
fn identical_frames_flush_to_trailing_only() {
    let game = &mut new_game(9);
    game.render();
    let first = game.flush_screen();
    assert!(first.len() > 4);
    // Re-render the identical frame: the diff is empty, so only the
    // trailing reset and cursor move are emitted.
    game.render();
    let second = game.flush_screen();
    assert_eq!(second.len(), 4);
    assert!(!second
        .iter()
        .any(|c| matches!(c, Command::Print(_))));
}
