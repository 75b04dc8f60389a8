use spiral_matrix::cursor::{Cursor, Error};
use spiral_matrix::direction::Direction;
use spiral_matrix::matrix::{Matrix, MATRIX_SIZE};
use spiral_matrix::text::{decimal_len, push_decimal, push_field};

fn filled(n: usize) -> Matrix {
    let mut m = Matrix::new(n);
    m.fill_spiral();
    m
}

fn grid(m: &Matrix) -> Vec<Vec<usize>> {
    m.matrix.clone()
}

fn position_of(m: &Matrix, v: usize) -> (usize, usize) {
    for i in 0..m.size {
        for j in 0..m.size {
            if m.matrix[i][j] == v {
                return (i, j);
            }
        }
    }
    panic!("{} is not in the grid", v);
}

const STEPS: [(i64, i64); 4] = [(0, 1), (1, 0), (0, -1), (-1, 0)];

#[test]
fn three_by_three_grid() {
    let m = filled(3);
    assert_eq!(grid(&m), vec![vec![1, 2, 3], vec![8, 9, 4], vec![7, 6, 5]]);
    assert_eq!(m.render(), "   1   2   3\n   8   9   4\n   7   6   5\n");
}

#[test]
fn single_cell_grid() {
    let m = filled(1);
    assert_eq!(grid(&m), vec![vec![1]]);
    assert_eq!(m.render(), "   1\n");
    assert_eq!(m.count, 1);
}

#[test]
fn two_by_two_grid() {
    let m = filled(2);
    assert_eq!(grid(&m), vec![vec![1, 2], vec![4, 3]]);
    assert_eq!(m.render(), "   1   2\n   4   3\n");
}

#[test]
fn four_by_four_grid() {
    let m = filled(4);
    assert_eq!(
        grid(&m),
        vec![
            vec![1, 2, 3, 4],
            vec![12, 13, 14, 5],
            vec![11, 16, 15, 6],
            vec![10, 9, 8, 7],
        ]
    );
}

#[test]
fn reference_size_grid() {
    let m = filled(MATRIX_SIZE);
    let g = grid(&m);
    assert_eq!(g[0], (1..=10).collect::<Vec<usize>>());
    assert_eq!(g[1], vec![36, 37, 38, 39, 40, 41, 42, 43, 44, 11]);
    assert_eq!(g[9], vec![28, 27, 26, 25, 24, 23, 22, 21, 20, 19]);
    assert_eq!(g[5][4], 100);
    let text = m.render();
    assert_eq!(text.lines().count(), 10);
    assert!(text.lines().all(|l| l.len() == 40));
    assert!(text.starts_with("   1   2   3   4   5   6   7   8   9  10\n"));
}

#[test]
fn every_number_once() {
    for n in 1..=12usize {
        let m = filled(n);
        let mut seen = vec![false; n * n + 1];
        for row in &m.matrix {
            assert_eq!(row.len(), n);
            for &v in row {
                assert!(v >= 1 && v <= n * n);
                assert!(!seen[v]);
                seen[v] = true;
            }
        }
        assert!(seen[1..].iter().all(|&s| s));
        assert_eq!(m.count, n * n);
    }
}

#[test]
fn starts_top_left_ends_in_middle() {
    for n in 1..=12usize {
        let m = filled(n);
        assert_eq!(m.matrix[0][0], 1);
        let center = if n % 2 == 1 { ((n - 1) / 2, (n - 1) / 2) } else { (n / 2, n / 2 - 1) };
        assert_eq!(position_of(&m, n * n), center);
        assert_eq!((m.cursor.x, m.cursor.y), center);
    }
}

#[test]
fn headings_turn_clockwise_only_when_blocked() {
    for n in 1..=12usize {
        let m = filled(n);
        let mut heading = 0usize;
        for v in 1..(n * n) {
            let (i, j) = position_of(&m, v);
            let (a, b) = position_of(&m, v + 1);
            let step = (a as i64 - i as i64, b as i64 - j as i64);
            let d = STEPS.iter().position(|&s| s == step).expect("a unit step");
            let (ri, rj) = (i as i64 + STEPS[heading].0, j as i64 + STEPS[heading].1);
            let straight_blocked = ri < 0
                || rj < 0
                || ri >= n as i64
                || rj >= n as i64
                || m.matrix[ri as usize][rj as usize] <= v;
            if d == heading {
                assert!(!straight_blocked);
            } else {
                assert_eq!(d, (heading + 1) % 4);
                assert!(straight_blocked);
            }
            heading = d;
        }
    }
}

#[test]
fn rendering_twice_gives_same_text() {
    let m = filled(5);
    let first = m.render();
    let second = m.render();
    assert_eq!(first, second);
    assert_eq!(
        first,
        "   1   2   3   4   5\n  16  17  18  19   6\n  15  24  25  20   7\n  14  23  22  21   8\n  13  12  11  10   9\n"
    );
}

#[test]
fn wide_numbers_widen_their_field() {
    let mut m = Matrix::new(1);
    m.matrix[0][0] = 12345;
    assert_eq!(m.render(), "12345\n");
    let big = filled(100);
    let text = big.render();
    assert!(text.lines().nth(50).unwrap().contains("10000"));
}

#[test]
fn empty_grid_renders_zeros() {
    let m = Matrix::new(2);
    assert_eq!(m.render(), "   0   0\n   0   0\n");
}

#[test]
fn decimal_digits() {
    assert_eq!(decimal_len(0), 1);
    assert_eq!(decimal_len(9), 1);
    assert_eq!(decimal_len(10), 2);
    assert_eq!(decimal_len(usize::MAX), usize::MAX.to_string().len());
    let mut s = String::from("x");
    push_decimal(&mut s, 907);
    assert_eq!(s, "x907");
    let mut t = String::new();
    push_field(&mut t, 42);
    push_field(&mut t, 0);
    assert_eq!(t, "  42   0");
}

#[test]
fn direction_cycles_right_down_left_up() {
    let mut d = Direction::new();
    assert_eq!(d.offset(), [0, 1]);
    d.next();
    assert_eq!(d.offset(), [1, 0]);
    d.next();
    assert_eq!(d.offset(), [0, -1]);
    d.next();
    assert_eq!(d.offset(), [-1, 0]);
    d.next();
    assert_eq!(d.value, 0);
    assert_eq!(d.offset(), [0, 1]);
}

#[test]
fn cursor_steps_and_overflows() {
    let mut c = Cursor::new();
    assert_eq!((c.x, c.y), (0, 0));
    assert_eq!(c.add([0, -1], 3), Err(Error::CursorOverflow));
    assert_eq!(c.add([-1, 0], 3), Err(Error::CursorOverflow));
    assert_eq!(c.add([0, 1], 3), Ok([0, 1]));
    c.set(&[2, 2]);
    assert_eq!((c.x, c.y), (2, 2));
    assert_eq!(c.add([1, 0], 3), Err(Error::CursorOverflow));
    assert_eq!(c.add([0, 1], 3), Err(Error::CursorOverflow));
    assert_eq!(c.add([0, -1], 3), Ok([2, 1]));
}

#[test]
fn move_cursor_reports_both_blocks() {
    let mut m = Matrix::new(3);
    assert_eq!(m.move_cursor(), Ok(()));
    assert_eq!((m.cursor.x, m.cursor.y), (0, 1));
    m.switch_direction();
    m.switch_direction();
    m.count = 1;
    m.matrix[0][0] = 1;
    assert_eq!(m.move_cursor(), Err(Error::PositionNotEmpty));
    assert_eq!((m.cursor.x, m.cursor.y), (0, 1));
    m.switch_direction();
    assert_eq!(m.move_cursor(), Err(Error::CursorOverflow));
    assert_eq!((m.cursor.x, m.cursor.y), (0, 1));
}

#[test]
fn set_one_position_writes_counter() {
    let mut m = Matrix::new(2);
    m.count = 7;
    m.cursor.set(&[1, 0]);
    m.set_one_position();
    assert_eq!(grid(&m), vec![vec![0, 0], vec![7, 0]]);
}
