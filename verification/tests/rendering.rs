use mazegen::cell::Cell;
use mazegen::generate::{gen_btree, gen_sidewinder};
use mazegen::glyph::{glyph, rotate_wall_bit, Direction, Vec2i, EAST, NORTH, SOUTH, WEST};
use mazegen::grid::Grid;
use mazegen::random::FixedSource;
use mazegen::render::{picture_lines, render, wall_contributions, Contribution, Picture};

fn codes(p: &Picture) -> Vec<Vec<u8>> {
    (0..p.rows()).map(|r| (0..p.cols()).map(|c| p.code(r, c)).collect()).collect()
}

fn text(p: &Picture) -> Vec<String> {
    picture_lines(p).into_iter().map(|line| line.into_iter().collect()).collect()
}

#[test]
fn glyph_table() {
    let expected = [
        ' ', '║', '═', '╚', '║', '║', '╔', '╠', '═', '╝', '═', '╩', '╗', '╣', '╦', '╬',
    ];
    for code in 0..16u8 {
        assert_eq!(glyph(code), expected[code as usize]);
    }
}

#[test]
fn direction_bits_and_steps() {
    assert_eq!(Direction::North.bit(), 1);
    assert_eq!(Direction::East.bit(), 2);
    assert_eq!(Direction::South.bit(), 4);
    assert_eq!(Direction::West.bit(), 8);
    assert_eq!((NORTH, EAST, SOUTH, WEST), (1, 2, 4, 8));
    assert_eq!(Direction::North.delta(), Vec2i::new(-1, 0));
    assert_eq!(Direction::East.delta(), Vec2i::new(0, 1));
    assert_eq!(Direction::South.delta(), Vec2i::new(1, 0));
    assert_eq!(Direction::West.delta(), Vec2i::new(0, -1));
}

#[test]
fn vectors_add_and_subtract_by_component() {
    let v = Vec2i::new(3, -4);
    assert_eq!((v.x, v.y), (3, -4));
    assert_eq!(v.plus(Vec2i::new(10, 20)), Vec2i { x: 13, y: 16 });
    assert_eq!(v.minus(Vec2i::new(10, 20)), Vec2i { x: -7, y: -24 });
}

#[test]
fn rotate_wall_bit_turns_a_quadrant() {
    assert_eq!(rotate_wall_bit(Direction::North, true), EAST);
    assert_eq!(rotate_wall_bit(Direction::East, true), SOUTH);
    assert_eq!(rotate_wall_bit(Direction::South, true), WEST);
    assert_eq!(rotate_wall_bit(Direction::West, true), NORTH);
    assert_eq!(rotate_wall_bit(Direction::North, false), WEST);
    assert_eq!(rotate_wall_bit(Direction::East, false), NORTH);
    assert_eq!(rotate_wall_bit(Direction::South, false), EAST);
    assert_eq!(rotate_wall_bit(Direction::West, false), SOUTH);
}

#[test]
fn wall_contributions_of_each_direction() {
    let k = |row, col, bits| Contribution { row, col, bits };
    assert_eq!(wall_contributions(Direction::North, 3, 5), (k(2, 4, 2), k(2, 6, 8), k(2, 5, 10)));
    assert_eq!(wall_contributions(Direction::East, 3, 5), (k(4, 6, 1), k(2, 6, 4), k(3, 6, 5)));
    assert_eq!(wall_contributions(Direction::South, 3, 5), (k(4, 6, 8), k(4, 4, 2), k(4, 5, 10)));
    assert_eq!(wall_contributions(Direction::West, 3, 5), (k(2, 4, 4), k(4, 4, 1), k(3, 4, 5)));
}

#[test]
fn single_cell_renders_as_a_box() {
    let g = Grid::new(1, 1).ok().unwrap();
    let p = render(&g);
    assert_eq!(codes(&p), vec![vec![6, 10, 12], vec![5, 0, 5], vec![3, 10, 9]]);
    assert_eq!(text(&p), vec!["╔═══╗", "║   ║", "╚═══╝"]);
}

#[test]
fn btree_two_by_two_always_north_picture() {
    let mut rng = FixedSource::new(0);
    let g = gen_btree(2, 2, &mut rng).ok().unwrap();
    let p = render(&g);
    assert_eq!(p.code(0, 0), 6);
    assert_eq!(glyph(p.code(0, 0)), '╔');
    assert_eq!(
        codes(&p),
        vec![
            vec![6, 10, 10, 10, 12],
            vec![5, 0, 0, 0, 5],
            vec![5, 0, 4, 0, 5],
            vec![5, 0, 5, 0, 5],
            vec![3, 10, 11, 10, 9],
        ]
    );
    assert_eq!(
        text(&p),
        vec!["╔═══════╗", "║       ║", "║   ║   ║", "║   ║   ║", "╚═══╩═══╝"]
    );
}

#[test]
fn fully_walled_grid_picture() {
    let g = Grid::new(2, 2).ok().unwrap();
    let p = render(&g);
    assert_eq!(
        codes(&p),
        vec![
            vec![6, 10, 14, 10, 12],
            vec![5, 0, 5, 0, 5],
            vec![7, 10, 15, 10, 13],
            vec![5, 0, 5, 0, 5],
            vec![3, 10, 11, 10, 9],
        ]
    );
    assert_eq!(
        text(&p),
        vec!["╔═══╦═══╗", "║   ║   ║", "╠═══╬═══╣", "║   ║   ║", "╚═══╩═══╝"]
    );
}

#[test]
fn a_wall_on_one_side_only_is_still_drawn() {
    let mut g = Grid::new(1, 2).ok().unwrap();
    g.set_cell(0, 0, Cell { n: false, e: true, s: false, w: false });
    let p = render(&g);
    assert_eq!(p.code(1, 2), 5);
    assert_eq!(p.code(0, 2), 14);
    assert_eq!(p.code(2, 2), 11);
}

#[test]
fn a_lone_wall_end_has_one_arm() {
    let mut g = Grid::new(2, 2).ok().unwrap();
    g.set_cell(0, 0, Cell { n: false, e: false, s: true, w: false });
    g.set_cell(0, 1, Cell { n: false, e: false, s: true, w: false });
    g.set_cell(1, 0, Cell { n: true, e: true, s: false, w: false });
    g.set_cell(1, 1, Cell { n: true, e: false, s: false, w: true });
    let p = render(&g);
    assert_eq!(p.code(2, 2), 1);
    assert_eq!(p.code(1, 2), 5);
    assert_eq!(p.code(3, 2), 0);
    assert_eq!(
        text(&p),
        vec!["╔═══╦═══╗", "║   ║   ║", "║   ║   ║", "║       ║", "╚═══════╝"]
    );
}

#[test]
fn rendering_twice_gives_the_same_picture() {
    let mut rng = FixedSource::new(5);
    let g = gen_sidewinder(6, 7, &mut rng).ok().unwrap();
    let a = render(&g);
    let b = render(&g);
    assert_eq!(codes(&a), codes(&b));
    assert_eq!(text(&a), text(&b));
}

#[test]
fn picture_has_the_documented_size() {
    let mut rng = FixedSource::new(3);
    let g = gen_sidewinder(12, 12, &mut rng).ok().unwrap();
    let p = render(&g);
    assert_eq!(p.rows(), 25);
    assert_eq!(p.cols(), 25);
    let lines = picture_lines(&p);
    assert_eq!(lines.len(), 25);
    for line in &lines {
        assert_eq!(line.len(), 49);
    }
    for r in 0..25 {
        for c in 0..25 {
            assert!(p.code(r, c) < 16);
            if r % 2 == 1 && c % 2 == 1 {
                assert_eq!(p.code(r, c), 0);
            }
        }
    }
}

#[test]
fn lines_show_odd_columns_three_times() {
    let g = Grid::new(1, 2).ok().unwrap();
    let p = render(&g);
    let lines = picture_lines(&p);
    for r in 0..3 {
        let mut expected = Vec::new();
        for c in 0..5 {
            let n = if c % 2 == 1 { 3 } else { 1 };
            for _ in 0..n {
                expected.push(glyph(p.code(r, c)));
            }
        }
        assert_eq!(lines[r], expected);
    }
    assert_eq!(text(&p), vec!["╔═══╦═══╗", "║   ║   ║", "╚═══╩═══╝"]);
}
