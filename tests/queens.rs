use exercises::board::{AttackChange, Board, ConfigError, Field, Position};
use exercises::legality::{end_of_row, start_of_column, start_of_row, Direction};
use exercises::search::solve;

fn queens_of(b: &Board) -> Vec<(usize, usize)> {
    let n = b.size_of();
    let mut out = Vec::new();
    for r in 0..n {
        for c in 0..n {
            if b.holds_queen(&Position { row: r, column: c }) {
                out.push((r, c));
            }
        }
    }
    out
}

fn attack(a: (usize, usize), b: (usize, usize)) -> bool {
    let (r1, c1) = (a.0 as i64, a.1 as i64);
    let (r2, c2) = (b.0 as i64, b.1 as i64);
    r1 == r2 || c1 == c2 || r1 - c1 == r2 - c2 || r1 + c1 == r2 + c2
}

fn assert_valid_solution(b: &Board, n: usize) {
    let qs = queens_of(b);
    assert_eq!(qs.len(), n);
    for i in 0..qs.len() {
        for j in (i + 1)..qs.len() {
            assert!(!attack(qs[i], qs[j]), "{:?} and {:?} attack", qs[i], qs[j]);
        }
    }
}

fn fields_of(b: &Board) -> Vec<Field> {
    let n = b.size_of();
    let mut out = Vec::new();
    for r in 0..n {
        for c in 0..n {
            out.push(b.field_at(&Position { row: r, column: c }));
        }
    }
    out
}

#[test]
fn one_queen_fits_on_one_square() {
    let b = solve(1).unwrap().expect("a solution for n = 1");
    assert_eq!(queens_of(&b), vec![(0, 0)]);
}

#[test]
fn no_solution_for_two_and_three() {
    assert!(solve(2).unwrap().is_none());
    assert!(solve(3).unwrap().is_none());
}

#[test]
fn solutions_exist_from_four_to_ten() {
    for n in 4..=10 {
        let b = solve(n).unwrap().expect("a solution");
        assert_valid_solution(&b, n);
    }
}

#[test]
fn zero_size_is_a_configuration_error() {
    assert!(matches!(solve(0), Err(ConfigError::ZeroSize)));
    assert!(matches!(Board::empty(0), Err(ConfigError::ZeroSize)));
}

#[test]
fn four_queens_first_solution_in_search_order() {
    let b = solve(4).unwrap().unwrap();
    assert_eq!(queens_of(&b), vec![(0, 2), (1, 0), (2, 3), (3, 1)]);
}

#[test]
fn five_queens_are_pairwise_safe() {
    let b = solve(5).unwrap().unwrap();
    assert_valid_solution(&b, 5);
    assert!(b.board_is_a_solution());
}

#[test]
fn repeated_runs_give_the_same_board() {
    for n in 1..=8 {
        let a = solve(n).unwrap();
        let b = solve(n).unwrap();
        match (a, b) {
            (Some(a), Some(b)) => assert_eq!(fields_of(&a), fields_of(&b)),
            (None, None) => {}
            _ => panic!("runs disagree for n = {}", n),
        }
    }
}

#[test]
fn empty_board_is_unattacked() {
    let b = Board::empty(3).unwrap();
    assert_eq!(b.size_of(), 3);
    assert!(fields_of(&b).iter().all(|f| *f == Field::Empty(0)));
}

#[test]
fn placing_counts_attacks_on_lines_only() {
    let mut b = Board::empty(4).unwrap();
    b.place_queen(&Position { row: 1, column: 1 });
    let f = |r: usize, c: usize| b.field_at(&Position { row: r, column: c });
    assert_eq!(f(1, 1), Field::Queen);
    assert_eq!(f(1, 3), Field::Empty(1));
    assert_eq!(f(3, 1), Field::Empty(1));
    assert_eq!(f(0, 0), Field::Empty(1));
    assert_eq!(f(3, 3), Field::Empty(1));
    assert_eq!(f(0, 2), Field::Empty(1));
    assert_eq!(f(2, 0), Field::Empty(1));
    assert_eq!(f(0, 3), Field::Empty(0));
    assert_eq!(f(3, 2), Field::Empty(0));
    assert!(!b.is_not_attacked(&Position { row: 1, column: 3 }));
    assert!(b.is_not_attacked(&Position { row: 0, column: 3 }));
}

#[test]
fn counts_add_up_over_several_queens() {
    let mut b = Board::empty(5).unwrap();
    b.place_queen(&Position { row: 0, column: 0 });
    b.place_queen(&Position { row: 1, column: 2 });
    assert_eq!(b.field_at(&Position { row: 2, column: 2 }), Field::Empty(2));
    assert_eq!(b.field_at(&Position { row: 4, column: 4 }), Field::Empty(1));
    assert_eq!(b.field_at(&Position { row: 2, column: 1 }), Field::Empty(1));
}

#[test]
fn remove_after_place_restores_the_board() {
    let mut b = Board::empty(6).unwrap();
    b.place_queen(&Position { row: 0, column: 1 });
    b.place_queen(&Position { row: 1, column: 3 });
    let before = fields_of(&b);
    let p = Position { row: 2, column: 5 };
    assert!(b.is_not_attacked(&p));
    b.place_queen(&p);
    assert_ne!(fields_of(&b), before);
    b.remove_queen(&p);
    assert_eq!(fields_of(&b), before);
}

#[test]
fn adjusting_one_square_skips_queens() {
    let mut b = Board::empty(3).unwrap();
    let p = Position { row: 0, column: 0 };
    b.adjust_attack_count_at(&p, &AttackChange::Increase);
    assert_eq!(b.field_at(&p), Field::Empty(1));
    b.adjust_attack_count_at(&p, &AttackChange::Decrease);
    assert_eq!(b.field_at(&p), Field::Empty(0));
    b.put_queen_at(&p);
    b.adjust_attack_count_at(&p, &AttackChange::Increase);
    assert_eq!(b.field_at(&p), Field::Queen);
    b.remove_queen_from(&p);
    assert_eq!(b.field_at(&p), Field::Empty(0));
}

#[test]
fn adjust_attack_counts_leaves_the_queen_square() {
    let mut b = Board::empty(3).unwrap();
    let p = Position { row: 1, column: 1 };
    b.adjust_attack_counts(&p, AttackChange::Increase);
    assert_eq!(b.field_at(&p), Field::Empty(0));
    assert!(fields_of(&b).iter().filter(|f| **f == Field::Empty(1)).count() == 8);
}

#[test]
fn legality_scan_finds_attacks_on_every_line() {
    let pairs = [
        ((0, 0), (0, 3)),
        ((0, 2), (3, 2)),
        ((1, 0), (3, 2)),
        ((0, 1), (2, 3)),
        ((0, 3), (3, 0)),
        ((2, 3), (3, 2)),
    ];
    for (a, c) in pairs {
        let mut b = Board::empty(4).unwrap();
        b.put_queen_at(&Position { row: a.0, column: a.1 });
        assert!(b.board_is_legal());
        b.put_queen_at(&Position { row: c.0, column: c.1 });
        assert!(!b.board_is_legal(), "{:?} {:?}", a, c);
        assert!(!b.board_is_a_solution());
    }
}

#[test]
fn series_scan_counts_one_line() {
    let mut b = Board::empty(4).unwrap();
    b.put_queen_at(&Position { row: 1, column: 2 });
    b.put_queen_at(&Position { row: 2, column: 1 });
    assert!(!b.series_is_legal(start_of_column(3), Direction::DiagonalLeft));
    assert!(b.series_is_legal(start_of_row(1), Direction::Horizontal));
    assert!(b.series_is_legal(end_of_row(1, 4), Direction::DiagonalLeft));
    assert!(b.series_is_legal(start_of_row(0), Direction::DiagonalRight));
}

#[test]
fn board_is_a_solution_needs_n_queens() {
    let mut b = Board::empty(4).unwrap();
    for (r, c) in [(0, 1), (1, 3), (2, 0)] {
        b.put_queen_at(&Position { row: r, column: c });
    }
    assert!(b.board_is_legal());
    assert!(!b.board_is_a_solution());
    b.put_queen_at(&Position { row: 3, column: 2 });
    assert!(b.board_is_a_solution());
}

#[test]
fn enumeration_searches_agree_with_pruned_search() {
    for n in 1..=5 {
        let mut two = Board::empty(n).unwrap();
        let found_two = two.place_queens_2(Position::origin(), 0);
        let mut three = Board::empty(n).unwrap();
        let found_three = three.place_queens_3(0, Position::origin());
        assert_eq!(found_two, found_three);
        assert_eq!(queens_of(&two), queens_of(&three));
        if n <= 4 {
            let mut one = Board::empty(n).unwrap();
            let found_one = one.place_queens_1(Position::origin());
            assert_eq!(found_one, found_three);
            assert_eq!(queens_of(&one), queens_of(&three));
        }
    }
}

#[test]
fn failed_search_leaves_board_unchanged() {
    let mut b = Board::empty(3).unwrap();
    assert!(!b.place_queens_3(0, Position::origin()));
    assert!(fields_of(&b).iter().all(|f| *f == Field::Empty(0)));
    assert!(!b.place_queens_1(Position::origin()));
    assert!(queens_of(&b).is_empty());
}

#[test]
fn positions_step_in_row_major_order() {
    let p = Position::origin();
    assert_eq!(p, Position { row: 0, column: 0 });
    assert_eq!(p.next(3), Position { row: 0, column: 1 });
    assert_eq!(Position { row: 1, column: 2 }.next(3), Position { row: 2, column: 0 });
    assert!(Position { row: 3, column: 0 }.is_outside_board(3));
    assert!(Position { row: 0, column: 3 }.is_outside_board(3));
    assert!(!Position { row: 2, column: 2 }.is_outside_board(3));
}

#[test]
fn moves_follow_the_direction() {
    let mut p = Position { row: 1, column: 1 };
    p.move_in(&Direction::Horizontal);
    assert_eq!(p, Position { row: 1, column: 2 });
    p.move_in(&Direction::Vertical);
    assert_eq!(p, Position { row: 2, column: 2 });
    p.move_in(&Direction::DiagonalRight);
    assert_eq!(p, Position { row: 3, column: 3 });
    p.move_in(&Direction::DiagonalLeft);
    assert_eq!(p, Position { row: 4, column: 2 });
    assert_eq!(end_of_row(2, 5), Position { row: 2, column: 4 });
    assert_eq!(start_of_column(3), Position { row: 0, column: 3 });
}

#[test]
fn board_is_complete_with_one_queen_per_row() {
    let b = Board::empty(4).unwrap();
    assert!(b.is_complete(4));
    assert!(!b.is_complete(3));
    assert!(!b.is_complete(0));
}

#[test]
fn next_steps_past_the_last_row() {
    assert_eq!(Position { row: 5, column: 1 }.next(3), Position { row: 5, column: 2 });
    assert_eq!(Position { row: 3, column: 2 }.next(3), Position { row: 4, column: 0 });
}

#[test]
fn enumeration_with_enough_queens_only_checks_the_board() {
    let mut b = Board::empty(4).unwrap();
    for (r, c) in [(0, 1), (1, 3), (2, 0), (3, 2)] {
        b.place_queen(&Position { row: r, column: c });
    }
    let before = fields_of(&b);
    assert!(b.place_queens_2(Position { row: 3, column: 3 }, 4));
    assert_eq!(fields_of(&b), before);

    let mut b = Board::empty(4).unwrap();
    for (r, c) in [(0, 0), (0, 1), (0, 2), (0, 3)] {
        b.put_queen_at(&Position { row: r, column: c });
    }
    let before = fields_of(&b);
    assert!(!b.place_queens_2(Position { row: 1, column: 0 }, 4));
    assert_eq!(fields_of(&b), before);
}

#[test]
fn enumerations_continue_from_a_partial_board() {
    let mut one = Board::empty(4).unwrap();
    one.put_queen_at(&Position { row: 0, column: 1 });
    let mut two = Board::empty(4).unwrap();
    two.put_queen_at(&Position { row: 0, column: 1 });
    assert!(one.place_queens_1(Position { row: 1, column: 0 }));
    assert!(two.place_queens_2(Position { row: 1, column: 0 }, 1));
    assert_eq!(queens_of(&one), vec![(0, 1), (1, 3), (2, 0), (3, 2)]);
    assert_eq!(fields_of(&one), fields_of(&two));
    assert_eq!(one.field_at(&Position { row: 0, column: 0 }), Field::Empty(0));
}
