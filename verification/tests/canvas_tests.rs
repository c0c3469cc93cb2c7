use xob::route::{heuristic, is_goal, neighbors};
use xob::xob::{create_grid, find_edge, find_nearest_edge, Canvas};

fn blank(width: usize, height: usize) -> Canvas {
    Canvas { grid: create_grid(width, height) }
}

#[test]
fn create_grid_is_blank_and_white() {
    let g = create_grid(3, 2);
    assert_eq!(g.len(), 2);
    for row in &g {
        assert_eq!(row.len(), 3);
        assert!(row.iter().all(|c| *c == (' ', 'w')));
    }
    assert!(create_grid(0, 4).iter().all(|r| r.is_empty()));
    assert!(create_grid(4, 0).is_empty());
}

#[test]
fn place_block_draws_lines_and_marks_spaces() {
    let mut c = blank(5, 3);
    c.place_block("ab\nc d", 1, 0, 'r');
    assert_eq!(c.grid[0], vec![(' ', 'w'), ('a', 'r'), ('b', 'r'), (' ', 'w'), (' ', 'w')]);
    assert_eq!(c.grid[1], vec![(' ', 'w'), ('c', 'r'), (' ', 'A'), ('d', 'r'), (' ', 'w')]);
    assert!(c.grid[2].iter().all(|x| *x == (' ', 'w')));
}

#[test]
fn place_block_cuts_off_outside_grid() {
    let mut c = blank(3, 2);
    c.place_block("abcd\nefgh\nijkl", 1, 1, 'g');
    assert_eq!(c.grid[0], vec![(' ', 'w'); 3]);
    assert_eq!(c.grid[1], vec![(' ', 'w'), ('a', 'g'), ('b', 'g')]);
    let before = c.grid.clone();
    c.place_block("zz", 7, 0, 'g');
    c.place_block("zz", 0, 9, 'g');
    assert_eq!(c.grid, before);
}

#[test]
fn place_border_draws_rulers() {
    let mut c = blank(12, 3);
    c.place_border();
    let top: String = c.grid[0].iter().map(|x| x.0).collect();
    assert_eq!(top, "012345678901");
    assert!(c.grid[0].iter().all(|x| x.1 == 'G'));
    assert_eq!(c.grid[1][0], ('1', 'G'));
    assert_eq!(c.grid[2][0], ('2', 'G'));
    assert_eq!(c.grid[1][1], (' ', 'w'));
    let mut empty = Canvas { grid: Vec::new() };
    empty.place_border();
    assert!(empty.grid.is_empty());
}

#[test]
fn place_point_uses_row_then_column() {
    let mut c = blank(4, 3);
    c.place_point(2, 1, '#', 'y');
    assert_eq!(c.grid[2][1], ('#', 'y'));
    assert_eq!(c.grid[1][2], (' ', 'w'));
}

#[test]
fn buf_string_writes_escape_then_char() {
    let mut c = Canvas { grid: vec![vec![('a', 'w'), ('b', 'r')], vec![('c', 'z')]] };
    let mut buf = String::from(">");
    c._buf_string(&mut buf);
    assert_eq!(buf, ">\x1b[39ma\x1b[31mbc");
}

#[test]
fn find_edge_gives_edge_midpoints() {
    let e = find_edge(2, 3, "abcd\nefgh\nijkl");
    assert_eq!(e, [(2, 4), (5, 4), (4, 3), (4, 5)]);
    let one = find_edge(0, 0, "x");
    assert_eq!(one, [(0, 0), (0, 0), (0, 0), (0, 0)]);
}

#[test]
fn find_nearest_edge_swaps_block_coordinates() {
    // The block is handed to find_edge as (block_y, block_x): here (10, 0).
    let p = find_nearest_edge(20, 1, 0, 10, "abc\ndef\nghi");
    assert_eq!(p, (12, 1));
    let q = find_nearest_edge(0, 0, 0, 10, "abc\ndef\nghi");
    assert_eq!(q, (10, 1));
}

#[test]
fn find_nearest_edge_prefers_first_on_ties() {
    // A one-character block: all four midpoints coincide, the first is returned.
    let p = find_nearest_edge(0, 0, 3, 3, "x");
    assert_eq!(p, (3, 3));
}

#[test]
fn neighbors_lists_passable_cells_in_order() {
    let mut c = blank(3, 3);
    c.grid[1][2] = ('x', 'w');
    c.grid[0][1] = (' ', 'A');
    let n = neighbors((1, 1), &c.grid);
    assert_eq!(n, vec![((1, 2), 1), ((0, 1), 1)]);
    let corner = neighbors((0, 0), &c.grid);
    assert_eq!(corner, vec![((0, 1), 1)]);
    c.grid[2][1] = ('─', 'r');
    assert_eq!(neighbors((1, 1), &c.grid), vec![((1, 2), 1), ((0, 1), 1)]);
}

#[test]
fn heuristic_is_manhattan_distance() {
    assert_eq!(heuristic((1, 5), (4, 1)), 7);
    assert_eq!(heuristic((4, 1), (1, 5)), 7);
    assert!(is_goal((2, 3), (2, 3)));
    assert!(!is_goal((3, 2), (2, 3)));
}

#[test]
fn place_path_straight_line() {
    let mut c = blank(3, 3);
    c.place_path((0, 0), (2, 0), 'r');
    assert_eq!(c.grid[0][0], (' ', 'w'));
    assert_eq!(c.grid[0][1], ('─', 'r'));
    assert_eq!(c.grid[0][2], ('X', 'r'));
    assert!(c.grid[1].iter().all(|x| *x == (' ', 'w')));
}

#[test]
fn place_path_without_route_changes_nothing() {
    let mut c = blank(3, 3);
    for r in 0..3 {
        c.grid[r][1] = ('#', 'w');
    }
    let before = c.grid.clone();
    c.place_path((0, 0), (2, 2), 'r');
    assert_eq!(c.grid, before);
}

#[test]
fn draw_path_turns_and_connectors() {
    let mut c = blank(4, 4);
    c.grid[2][2] = ('│', 'w');
    c.draw_path(&vec![(0, 1), (1, 1), (2, 1), (2, 2)], 'b');
    assert_eq!(c.grid[1][1], ('─', 'b'));
    assert_eq!(c.grid[1][2], ('┐', 'b'));
    // prev '┐' then '│' at the end: '├'.
    assert_eq!(c.grid[2][2], ('├', 'b'));
    assert_eq!(c.grid[1][0], (' ', 'w'));
}

#[test]
fn place_route_marks_then_draws() {
    let mut c = blank(4, 2);
    c.place_route(&vec![(0, 0), (1, 0), (2, 0), (3, 0)], (0, 0), (3, 0), 'm');
    assert_eq!(c.grid[0][0], (' ', 'w'));
    assert_eq!(c.grid[0][1], ('─', 'm'));
    assert_eq!(c.grid[0][2], ('─', 'm'));
    assert_eq!(c.grid[0][3], ('X', 'm'));
}

#[test]
fn drawing_keeps_the_canvas_shape() {
    let mut c = blank(6, 4);
    c.place_border();
    c.place_block("long line here\nx", 3, 2, 'c');
    c.place_path((1, 1), (4, 1), 'y');
    assert_eq!(c.grid.len(), 4);
    assert!(c.grid.iter().all(|r| r.len() == 6));
}

#[test]
fn block_spaces_are_never_neighbours() {
    let mut c = blank(5, 3);
    c.place_block("─ x\n│", 1, 0, 'c');
    // (2, 0) holds the block's space, (3, 0) an 'x', (1, 1) a '│'.
    let n = neighbors((2, 1), &c.grid);
    assert_eq!(n, vec![((2, 2), 1), ((3, 1), 1), ((1, 1), 1)]);
    let m = neighbors((1, 0), &c.grid);
    assert_eq!(m, vec![((1, 1), 1), ((0, 0), 1)]);
}

#[test]
fn place_path_takes_a_shortest_way_around() {
    let mut c = blank(5, 3);
    c.grid[0][2] = ('#', 'w');
    c.grid[1][2] = ('#', 'w');
    c.place_path((0, 0), (4, 0), 'r');
    let drawn = c.grid.iter().flatten().filter(|x| x.1 == 'r').count();
    assert_eq!(drawn, 8);
    assert_eq!(c.grid[0][0], (' ', 'w'));
}

#[test]
fn place_path_off_grid_start_next_to_blocked_goal() {
    let mut c = blank(3, 3);
    c.grid[0][2] = ('#', 'w');
    let before = c.grid.clone();
    c.place_path((3, 0), (2, 0), 'r');
    assert_eq!(c.grid, before);
}

#[test]
fn place_path_on_rows_longer_than_the_first() {
    let mut c = blank(3, 3);
    c.grid[1].push((' ', 'w'));
    c.grid[2].push((' ', 'w'));
    c.place_path((0, 0), (2, 0), 'r');
    assert_eq!(c.grid[0][1], ('─', 'r'));
    assert_eq!(c.grid[0][2], ('X', 'r'));
    assert_eq!(c.grid[1][3], (' ', 'w'));
}
