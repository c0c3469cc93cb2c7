use xob::editor::{command, Action, Command, Dir, Key, Modifiers, State};
use xob::render::{buf_render, render_xob};
use xob::xob::{create_grid, Canvas};

fn text(s: &State, i: usize) -> String {
    s.blocks[i].0.iter().collect()
}

#[test]
fn new_state_has_one_selected_block() {
    let s = State::new(40, 20);
    assert_eq!(s.blocks.len(), 1);
    assert_eq!(s.current_selection, 0);
    assert_eq!(s.blocks[0].1, (1, 1));
    assert_eq!(s.blocks[0].2, 'w');
    assert!(s.blocks[0].0.is_empty());
    assert_eq!((s.grid_width, s.grid_height), (40, 20));
}

#[test]
fn commands_follow_the_key_table() {
    assert_eq!(command(Modifiers::Alt, Key::Right), Command::SelectNext);
    assert_eq!(command(Modifiers::Alt, Key::Down), Command::SelectNext);
    assert_eq!(command(Modifiers::Alt, Key::Up), Command::SelectPrev);
    assert_eq!(command(Modifiers::Shift, Key::Left), Command::Nothing);
    assert_eq!(command(Modifiers::Control, Key::Down), Command::Jump(Dir::Down));
    assert_eq!(command(Modifiers::Plain, Key::Left), Command::Step(Dir::Left));
    assert_eq!(command(Modifiers::Other, Key::Up), Command::Step(Dir::Up));
    assert_eq!(command(Modifiers::Control, Key::Char('n')), Command::NewBlock);
    assert_eq!(command(Modifiers::Control, Key::Char('q')), Command::Quit);
    assert_eq!(command(Modifiers::Control, Key::Char('p')), Command::Panic);
    assert_eq!(command(Modifiers::Control, Key::Char('h')), Command::DeleteWord);
    assert_eq!(command(Modifiers::Control, Key::Char('x')), Command::Insert('x'));
    assert_eq!(command(Modifiers::Shift, Key::Char('A')), Command::Insert('A'));
    assert_eq!(command(Modifiers::Alt, Key::Enter), Command::NewLine);
    assert_eq!(command(Modifiers::Plain, Key::Backspace), Command::DeleteChar);
    assert_eq!(command(Modifiers::Plain, Key::Other), Command::Nothing);
}

#[test]
fn typing_and_deleting() {
    let mut s = State::new(40, 20);
    for c in "hi there".chars() {
        assert_eq!(s.handle_key(Modifiers::Plain, Key::Char(c), 40, 20), Action::Continue);
    }
    assert_eq!(text(&s, 0), "hi there");
    s.handle_key(Modifiers::Plain, Key::Enter, 40, 20);
    assert_eq!(text(&s, 0), "hi there\n ");
    s.handle_key(Modifiers::Plain, Key::Backspace, 40, 20);
    s.handle_key(Modifiers::Plain, Key::Backspace, 40, 20);
    assert_eq!(text(&s, 0), "hi there");
    s.handle_key(Modifiers::Control, Key::Char('h'), 40, 20);
    assert_eq!(text(&s, 0), "hi");
    s.handle_key(Modifiers::Control, Key::Char('h'), 40, 20);
    assert_eq!(text(&s, 0), "");
    s.handle_key(Modifiers::Plain, Key::Backspace, 40, 20);
    assert_eq!(text(&s, 0), "");
}

#[test]
fn type_then_backspace_restores_text() {
    let mut s = State::new(40, 20);
    s.handle_key(Modifiers::Plain, Key::Char('a'), 40, 20);
    s.handle_key(Modifiers::Plain, Key::Char('z'), 40, 20);
    s.handle_key(Modifiers::Plain, Key::Backspace, 40, 20);
    assert_eq!(text(&s, 0), "a");
}

#[test]
fn new_block_selection_and_wrapping() {
    let mut s = State::new(40, 20);
    s.handle_key(Modifiers::Control, Key::Char('n'), 40, 20);
    assert_eq!(s.blocks.len(), 2);
    assert_eq!(s.current_selection, 1);
    assert_eq!(text(&s, 1), "X");
    assert_eq!(s.blocks[1].1, (0, 0));
    assert_eq!(s.blocks[0].2, 'w');
    s.handle_key(Modifiers::Alt, Key::Right, 40, 20);
    assert_eq!(s.current_selection, 0);
    s.handle_key(Modifiers::Alt, Key::Left, 40, 20);
    assert_eq!(s.current_selection, 1);
    s.handle_key(Modifiers::Alt, Key::Up, 40, 20);
    assert_eq!(s.current_selection, 0);
    s.handle_key(Modifiers::Alt, Key::Down, 40, 20);
    s.handle_key(Modifiers::Alt, Key::Left, 40, 20);
    assert_eq!(s.current_selection, 0);
}

#[test]
fn moving_blocks() {
    let mut s = State::new(10, 8);
    s.handle_key(Modifiers::Control, Key::Right, 10, 8);
    assert_eq!(s.blocks[0].1, (6, 1));
    s.handle_key(Modifiers::Control, Key::Right, 10, 8);
    assert_eq!(s.blocks[0].1, (7, 1));
    s.handle_key(Modifiers::Plain, Key::Right, 10, 8);
    assert_eq!(s.blocks[0].1, (7, 1));
    s.handle_key(Modifiers::Control, Key::Left, 10, 8);
    assert_eq!(s.blocks[0].1, (2, 1));
    s.handle_key(Modifiers::Control, Key::Left, 10, 8);
    assert_eq!(s.blocks[0].1, (0, 1));
    s.handle_key(Modifiers::Plain, Key::Left, 10, 8);
    assert_eq!(s.blocks[0].1, (0, 1));
    s.handle_key(Modifiers::Plain, Key::Up, 10, 8);
    assert_eq!(s.blocks[0].1, (0, 0));
    s.handle_key(Modifiers::Plain, Key::Up, 10, 8);
    assert_eq!(s.blocks[0].1, (0, 0));
    s.handle_key(Modifiers::Control, Key::Down, 10, 8);
    assert_eq!(s.blocks[0].1, (0, 5));
    s.handle_key(Modifiers::Plain, Key::Down, 10, 8);
    assert_eq!(s.blocks[0].1, (0, 5));
    s.handle_key(Modifiers::Control, Key::Up, 10, 8);
    assert_eq!(s.blocks[0].1, (0, 0));
    s.handle_key(Modifiers::Plain, Key::Right, 10, 8);
    assert_eq!(s.blocks[0].1, (1, 0));
    s.handle_key(Modifiers::Shift, Key::Right, 10, 8);
    assert_eq!(s.blocks[0].1, (1, 0));
}

#[test]
fn quit_and_panic_actions() {
    let mut s = State::new(40, 20);
    assert_eq!(s.handle_key(Modifiers::Control, Key::Char('q'), 40, 20), Action::Quit);
    assert_eq!(s.handle_key(Modifiers::Control, Key::Char('p'), 40, 20), Action::Panic);
    assert!(s.blocks[0].0.is_empty());
}

#[test]
fn render_draws_border_selected_block_and_debug_lines() {
    let mut s = State::new(12, 6);
    s.handle_key(Modifiers::Plain, Key::Char('h'), 12, 6);
    s.handle_key(Modifiers::Plain, Key::Char('i'), 12, 6);
    let canvas = Canvas { grid: create_grid(12, 6) };
    let debug = vec!["dbg".to_string(), "xy".to_string()];
    let out = render_xob(canvas, &s, &debug);
    let g = &out.grid;
    assert_eq!(g[0][3], ('3', 'G'));
    assert_eq!(g[4][0], ('4', 'G'));
    assert_eq!(g[1][1], ('┌', 'g'));
    assert_eq!(g[1][2], ('─', 'g'));
    assert_eq!(g[1][4], ('┐', 'g'));
    assert_eq!(g[2][1], ('│', 'g'));
    assert_eq!(g[2][2], ('h', 'g'));
    assert_eq!(g[2][3], ('i', 'g'));
    assert_eq!(g[3][4], ('┘', 'g'));
    // The first debug line starts below the grid; the second on the last row.
    assert_eq!(g[5][0], ('x', 'r'));
    assert_eq!(g[5][1], ('y', 'r'));
    assert_eq!(g[5][2], (' ', 'w'));
}

#[test]
fn render_shows_x_for_empty_block_and_white_when_unselected() {
    let mut s = State::new(12, 6);
    s.handle_key(Modifiers::Control, Key::Char('n'), 12, 6);
    let out = render_xob(Canvas { grid: create_grid(12, 6) }, &s, &Vec::new());
    let g = &out.grid;
    // Block 0 (empty, at (1, 1)) shows X in white; block 1 (at the origin) is
    // selected and drawn over it.
    assert_eq!(g[2][3], ('│', 'w'));
    assert_eq!(g[3][2], ('─', 'w'));
    assert_eq!(g[2][2], ('┘', 'g'));
    assert_eq!(g[0][0], ('┌', 'g'));
    assert_eq!(g[1][1], ('X', 'g'));
}

#[test]
fn buf_render_writes_rows_and_cursor_moves() {
    let c = Canvas { grid: vec![vec![('a', 'w'), ('b', 'r')], vec![('c', 'A')]] };
    let mut buf = String::new();
    buf_render(&mut buf, &c);
    assert_eq!(buf, "\x1b[39ma\x1b[31mb\x1b[2;0fc\x1b[3;0f");
}

#[test]
fn buf_render_multi_digit_rows() {
    let c = Canvas { grid: vec![Vec::new(); 11] };
    let mut buf = String::new();
    buf_render(&mut buf, &c);
    assert!(buf.ends_with("\x1b[11;0f\x1b[12;0f"));
}
