use minesweeper::board::{Content, Square, Visibility};
use minesweeper::cell::{Attrs, BufCell, Color};
use minesweeper::screen::{Command, Screen};

fn blank() -> BufCell {
    BufCell {
        content: ' ',
        fg: Color::Reset,
        bg: Color::Reset,
        attrs: Attrs { bits: 0 },
    }
}

fn trailing_for(cursor: (usize, usize)) -> Vec<Command> {
    vec![
        Command::SetFg(Color::Reset),
        Command::SetBg(Color::Reset),
        Command::SetAttrs(Attrs { bits: 0 }),
        Command::MoveTo(cursor.0, cursor.1),
    ]
}

#[test]
fn set_get_round_trip() {
    let mut screen = Screen::new((7, 5));
    let cell = BufCell {
        content: 'Z',
        fg: Color::Green,
        bg: Color::Black,
        attrs: Attrs { bits: 3 },
    };
    screen.set(4, 2, cell);
    assert_eq!(screen.get(4, 2), cell);
    // Neighbouring cells are untouched.
    assert_eq!(screen.get(3, 2), blank());
    assert_eq!(screen.get(4, 1), blank());
}

#[test]
fn set_content_keeps_style() {
    let mut screen = Screen::new((4, 4));
    let cell = BufCell {
        content: 'a',
        fg: Color::Red,
        bg: Color::Blue,
        attrs: Attrs { bits: 1 },
    };
    screen.set(1, 1, cell);
    screen.set_content(1, 1, 'b');
    let read = screen.get(1, 1);
    assert_eq!(read.content, 'b');
    assert_eq!(read.fg, Color::Red);
    assert_eq!(read.bg, Color::Blue);
    assert_eq!(read.attrs, Attrs { bits: 1 });
}

#[test]
fn flush_of_untouched_screen_emits_only_trailing() {
    let mut screen = Screen::new((6, 4));
    let out = screen.flush((2, 2));
    assert_eq!(out, trailing_for((2, 2)));
    // No intervening writes: the frame was blank, so the second flush also
    // emits only the trailing reset and cursor move.
    let out2 = screen.flush((3, 1));
    assert_eq!(out2, trailing_for((3, 1)));
}

#[test]
fn flush_after_one_change_emits_move_style_print() {
    let mut screen = Screen::new((6, 4));
    screen.set(
        2,
        1,
        BufCell {
            content: 'X',
            fg: Color::Red,
            bg: Color::Reset,
            attrs: Attrs { bits: 0 },
        },
    );
    let out = screen.flush((0, 0));
    let mut expected = vec![
        Command::MoveTo(2, 1),
        Command::SetFg(Color::Red),
        Command::Print('X'),
    ];
    expected.extend(trailing_for((0, 0)));
    assert_eq!(out, expected);
}

#[test]
fn flush_coalesces_contiguous_run_into_one_move() {
    let mut screen = Screen::new((8, 3));
    let red = |ch: char| BufCell {
        content: ch,
        fg: Color::Red,
        bg: Color::Reset,
        attrs: Attrs { bits: 0 },
    };
    screen.set(2, 1, red('a'));
    screen.set(3, 1, red('b'));
    screen.set(4, 1, red('c'));
    let out = screen.flush((0, 0));
    let mut expected = vec![
        Command::MoveTo(2, 1),
        Command::SetFg(Color::Red),
        Command::Print('a'),
        Command::Print('b'),
        Command::Print('c'),
    ];
    expected.extend(trailing_for((0, 0)));
    assert_eq!(out, expected);
}

#[test]
fn flush_moves_again_after_a_gap() {
    let mut screen = Screen::new((8, 3));
    let plain = |ch: char| BufCell {
        content: ch,
        fg: Color::Reset,
        bg: Color::Reset,
        attrs: Attrs { bits: 0 },
    };
    screen.set(1, 0, plain('a'));
    screen.set(5, 0, plain('b'));
    let out = screen.flush((0, 0));
    let mut expected = vec![
        Command::MoveTo(1, 0),
        Command::Print('a'),
        Command::MoveTo(5, 0),
        Command::Print('b'),
    ];
    expected.extend(trailing_for((0, 0)));
    assert_eq!(out, expected);
}

#[test]
fn flush_rotates_buffers() {
    // After a flush, the drawn frame is the previous grid, so drawing the
    // same frame again yields an empty diff; drawing nothing repaints the
    // old cells blank.
    let mut screen = Screen::new((6, 4));
    let cell = BufCell {
        content: 'Q',
        fg: Color::Reset,
        bg: Color::Reset,
        attrs: Attrs { bits: 0 },
    };
    screen.set(3, 2, cell);
    let _ = screen.flush((0, 0));
    // Redraw the identical frame: nothing but trailing comes out.
    screen.set(3, 2, cell);
    let out = screen.flush((0, 0));
    assert_eq!(out, trailing_for((0, 0)));
    // Draw nothing: the now-stale 'Q' is repainted blank.
    let out2 = screen.flush((0, 0));
    let mut expected = vec![Command::MoveTo(3, 2), Command::Print(' ')];
    expected.extend(trailing_for((0, 0)));
    assert_eq!(out2, expected);
}

#[test]
fn write_text_places_glyphs_left_to_right() {
    let mut screen = Screen::new((10, 3));
    screen.write_text((2, 1), "hey");
    assert_eq!(screen.get(2, 1).content, 'h');
    assert_eq!(screen.get(3, 1).content, 'e');
    assert_eq!(screen.get(4, 1).content, 'y');
    assert_eq!(screen.get(5, 1), blank());
    assert_eq!(screen.get(1, 1), blank());
}

#[test]
fn fill_overwrites_every_cell() {
    let mut screen = Screen::new((3, 3));
    let cell = BufCell {
        content: '#',
        fg: Color::Yellow,
        bg: Color::Reset,
        attrs: Attrs { bits: 0 },
    };
    screen.fill(cell);
    for row in 0..3 {
        for col in 0..3 {
            assert_eq!(screen.get(col, row), cell);
        }
    }
}

#[test]
fn square_to_cell_mapping() {
    let covered = Square::new(Content::Empty(0));
    assert_eq!(
        BufCell::from(covered),
        BufCell {
            content: '.',
            fg: Color::Reset,
            bg: Color::Reset,
            attrs: Attrs { bits: 0 }
        }
    );
    let flagged = Square {
        content: Content::Bomb,
        visibility: Visibility::Flagged,
    };
    assert_eq!(
        BufCell::from(flagged),
        BufCell {
            content: 'F',
            fg: Color::Red,
            bg: Color::Reset,
            attrs: Attrs { bits: 0 }
        }
    );
    let zero = Square {
        content: Content::Empty(0),
        visibility: Visibility::Uncovered,
    };
    assert_eq!(
        BufCell::from(zero),
        BufCell {
            content: '.',
            fg: Color::DarkGrey,
            bg: Color::Reset,
            attrs: Attrs { bits: 0 }
        }
    );
    let bomb = Square {
        content: Content::Bomb,
        visibility: Visibility::Uncovered,
    };
    assert_eq!(
        BufCell::from(bomb),
        BufCell {
            content: '*',
            fg: Color::Black,
            bg: Color::Red,
            attrs: Attrs { bits: 0 }
        }
    );
    for (n, fg) in [
        (1u8, Color::Blue),
        (2, Color::Green),
        (3, Color::Red),
        (4, Color::Yellow),
        (8, Color::Yellow),
    ] {
        let numbered = Square {
            content: Content::Empty(n),
            visibility: Visibility::Uncovered,
        };
        let cell = BufCell::from(numbered);
        assert_eq!(cell.content, (b'0' + n) as char);
        assert_eq!(cell.fg, fg);
    }
}
