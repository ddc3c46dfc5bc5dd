use exercises::factorial::factorial;
use exercises::fibonacci::prefill_vector;
use exercises::knights_tour::{find_tour, is_valid, Board, UNVISITED};

#[test]
fn factorial_values() {
    assert_eq!(factorial(0), 1);
    assert_eq!(factorial(1), 1);
    assert_eq!(factorial(5), 120);
    assert_eq!(factorial(20), 2432902008176640000);
}

#[test]
fn fibonacci_table() {
    let v = prefill_vector();
    assert_eq!(v.len(), 92);
    assert_eq!(v[0], 0);
    assert_eq!(v[1], 1);
    assert_eq!(v[10], 55);
    assert_eq!(v[91], 4660046610375530309);
    for i in 2..v.len() {
        assert_eq!(v[i], v[i - 1] + v[i - 2]);
    }
}

fn knight_offsets() -> [[i32; 2]; 8] {
    [[-2, -1], [-1, -2], [2, -1], [1, -2], [-2, 1], [-1, 2], [2, 1], [1, 2]]
}

#[test]
fn squares_on_the_tour_board() {
    assert!(is_valid(0, 0));
    assert!(is_valid(5, 5));
    assert!(!is_valid(-1, 0));
    assert!(!is_valid(0, 6));
}

#[test]
fn tour_is_complete_at_the_last_square() {
    let mut board: Board = [[UNVISITED; 6]; 6];
    let mut offsets = knight_offsets();
    assert!(find_tour(&mut board, &mut offsets, 3, 3, 36));
    assert_eq!(board, [[UNVISITED; 6]; 6]);
}

#[test]
fn tour_extends_to_a_free_neighbour() {
    let mut board: Board = [[0; 6]; 6];
    board[2][1] = UNVISITED;
    let mut offsets = knight_offsets();
    assert!(find_tour(&mut board, &mut offsets, 0, 0, 35));
    assert_eq!(board[0][0], 35);
    assert_eq!(board[2][1], UNVISITED);
}

#[test]
fn tour_fails_without_a_free_neighbour() {
    let mut board: Board = [[0; 6]; 6];
    let mut offsets = knight_offsets();
    assert!(!find_tour(&mut board, &mut offsets, 0, 0, 35));
    assert_eq!(board[0][0], UNVISITED);
    assert_eq!(board[1][1], 0);
}
