use gridpath::astar::{search, SearchError};
use gridpath::board::{Board, Coord, Plot};

fn grid(rows: &[&[i64]]) -> Board {
    // A negative number stands for an obstacle.
    let rows: Vec<Vec<Plot>> = rows
        .iter()
        .map(|r| {
            r.iter()
                .map(|&c| if c < 0 { Plot::Obstacle } else { Plot::Movable(c as u32) })
                .collect()
        })
        .collect();
    Board::from_rows(rows).expect("rectangular grid")
}

fn uniform(w: usize, h: usize) -> Board {
    Board::from_plots(w, h, vec![Plot::Movable(1); w * h]).unwrap()
}

fn cost_of(board: &Board, path: &[Coord]) -> u64 {
    path[1..]
        .iter()
        .map(|&p| match board.plot(p) {
            Plot::Movable(c) => c as u64,
            Plot::Obstacle => panic!("path through an obstacle"),
        })
        .sum()
}

fn assert_valid(board: &Board, path: &[Coord], start: Coord, end: Coord) {
    assert_eq!(path[0], start);
    assert_eq!(*path.last().unwrap(), end);
    for p in path {
        assert!(p.0 < board.width() && p.1 < board.height());
        assert_ne!(board.plot(*p), Plot::Obstacle);
    }
    for s in path.windows(2) {
        let dx = s[0].0 as i64 - s[1].0 as i64;
        let dy = s[0].1 as i64 - s[1].1 as i64;
        assert!(dx.abs() <= 1 && dy.abs() <= 1 && (dx, dy) != (0, 0));
    }
}

#[test]
fn corridor_path_costs_sum_of_entered_cells() {
    let board = grid(&[&[4, 2, 7, 1, 3]]);
    let path = search(board, (0, 0), (4, 0)).unwrap().unwrap();
    assert_eq!(path, vec![(0, 0), (1, 0), (2, 0), (3, 0), (4, 0)]);
    let board = grid(&[&[4, 2, 7, 1, 3]]);
    assert_eq!(cost_of(&board, &path), 2 + 7 + 1 + 3);
}

#[test]
fn corridor_backwards() {
    let board = grid(&[&[5], &[1], &[9], &[2]]);
    let path = search(board, (0, 3), (0, 0)).unwrap().unwrap();
    assert_eq!(path, vec![(0, 3), (0, 2), (0, 1), (0, 0)]);
}

#[test]
fn search_is_repeatable() {
    let rows: &[&[i64]] = &[&[1, 1, 3, 1], &[2, -1, 1, 1], &[1, 1, 1, -1], &[4, 1, 1, 1]];
    let first = search(grid(rows), (0, 0), (3, 3));
    let second = search(grid(rows), (0, 0), (3, 3));
    assert_eq!(first, second);
    assert!(matches!(first, Ok(Some(_))));
    let blocked: &[&[i64]] = &[&[1, -1, 1], &[-1, -1, 1], &[1, 1, 1]];
    assert_eq!(search(grid(blocked), (0, 0), (2, 2)), search(grid(blocked), (0, 0), (2, 2)));
}

#[test]
fn start_equals_end() {
    let path = search(uniform(3, 3), (1, 2), (1, 2)).unwrap().unwrap();
    assert_eq!(path, vec![(1, 2)]);
}

#[test]
fn walled_off_goal_has_no_path() {
    let board = grid(&[&[1, 1, -1, 1], &[1, 1, -1, 1], &[-1, -1, -1, 1], &[1, 1, 1, 1]]);
    assert_eq!(search(board, (0, 0), (3, 3)), Ok(None));
}

#[test]
fn obstacle_at_start_is_an_error() {
    let board = grid(&[&[-1, 1], &[1, 1]]);
    assert_eq!(search(board, (0, 0), (1, 1)), Err(SearchError::Obstacle));
}

#[test]
fn obstacle_at_end_is_an_error() {
    let board = grid(&[&[1, 1], &[1, -1]]);
    assert_eq!(search(board, (0, 0), (1, 1)), Err(SearchError::Obstacle));
}

#[test]
fn endpoint_outside_is_an_error() {
    assert_eq!(search(uniform(3, 3), (0, 0), (3, 0)), Err(SearchError::OutOfBounds));
    assert_eq!(search(uniform(3, 3), (0, 5), (0, 0)), Err(SearchError::OutOfBounds));
    assert_eq!(search(Board::new(), (0, 0), (0, 0)), Err(SearchError::OutOfBounds));
}

#[test]
fn uniform_grid_goes_diagonally() {
    let path = search(uniform(3, 3), (0, 0), (2, 2)).unwrap().unwrap();
    assert_eq!(path, vec![(0, 0), (1, 1), (2, 2)]);
}

#[test]
fn centre_obstacle_forces_a_detour() {
    let board = grid(&[&[1, 1, 1], &[1, -1, 1], &[1, 1, 1]]);
    let path = search(board, (0, 0), (2, 2)).unwrap().unwrap();
    let board = grid(&[&[1, 1, 1], &[1, -1, 1], &[1, 1, 1]]);
    assert_valid(&board, &path, (0, 0), (2, 2));
    assert!(!path.contains(&(1, 1)));
    // Corner steps are allowed, so going round the centre takes three steps.
    assert_eq!(cost_of(&board, &path), 3);
    assert_eq!(path.len(), 4);
}

#[test]
fn cheap_detour_beats_expensive_straight_line() {
    let board = grid(&[&[1, 9, 1], &[1, 9, 1], &[1, 1, 1]]);
    let path = search(board, (0, 0), (2, 0)).unwrap().unwrap();
    let board = grid(&[&[1, 9, 1], &[1, 9, 1], &[1, 1, 1]]);
    assert_valid(&board, &path, (0, 0), (2, 0));
    assert!(!path.contains(&(1, 0)) && !path.contains(&(1, 1)));
}

#[test]
fn zero_cost_cells_still_give_a_path() {
    let board = grid(&[&[0, 0, 0], &[0, 0, 0]]);
    let path = search(board, (0, 0), (2, 1)).unwrap().unwrap();
    let board = grid(&[&[0, 0, 0], &[0, 0, 0]]);
    assert_valid(&board, &path, (0, 0), (2, 1));
}

#[test]
fn steps_of_cost_two_give_a_cheapest_path() {
    let rows: &[&[i64]] = &[&[2, 9, 2], &[2, 9, 2], &[2, 2, 2]];
    let path = search(grid(rows), (0, 0), (2, 0)).unwrap().unwrap();
    let board = grid(rows);
    assert_valid(&board, &path, (0, 0), (2, 0));
    assert_eq!(cost_of(&board, &path), 8);
}
