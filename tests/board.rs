use gridpath::board::{Board, Plot};

fn sorted(mut v: Vec<((usize, usize), u32)>) -> Vec<((usize, usize), u32)> {
    v.sort();
    v
}

fn numbered(w: usize, h: usize) -> Board {
    let plots = (0..w * h).map(|i| Plot::Movable(i as u32)).collect();
    Board::from_plots(w, h, plots).unwrap()
}

#[test]
fn new_board_is_empty() {
    let b = Board::new();
    assert_eq!(b.width(), 0);
    assert_eq!(b.height(), 0);
    assert_eq!(b.cell_count(), 0);
}

#[test]
fn clear_empties_the_board() {
    let mut b = numbered(3, 2);
    b.clear();
    assert_eq!((b.width(), b.height(), b.cell_count()), (0, 0, 0));
}

#[test]
fn plots_are_stored_row_by_row() {
    let b = numbered(3, 2);
    assert_eq!(b.plot((2, 0)), Plot::Movable(2));
    assert_eq!(b.plot((0, 1)), Plot::Movable(3));
    assert_eq!(b.plot((2, 1)), Plot::Movable(5));
}

#[test]
fn from_plots_checks_the_count() {
    assert!(Board::from_plots(2, 2, vec![Plot::Obstacle; 3]).is_none());
    assert!(Board::from_plots(2, 2, vec![Plot::Obstacle; 4]).is_some());
    assert!(Board::from_plots(usize::MAX, 2, vec![]).is_none());
}

#[test]
fn from_rows_rejects_ragged_rows() {
    let rows = vec![vec![Plot::Movable(1), Plot::Movable(2)], vec![Plot::Movable(3)]];
    assert!(Board::from_rows(rows).is_none());
}

#[test]
fn from_rows_builds_the_grid() {
    let rows = vec![
        vec![Plot::Movable(1), Plot::Obstacle, Plot::Movable(3)],
        vec![Plot::Movable(4), Plot::Movable(5), Plot::Movable(6)],
    ];
    let b = Board::from_rows(rows).unwrap();
    assert_eq!((b.width(), b.height()), (3, 2));
    assert_eq!(b.plot((1, 0)), Plot::Obstacle);
    assert_eq!(b.plot((0, 1)), Plot::Movable(4));
    let empty = Board::from_rows(vec![]).unwrap();
    assert_eq!((empty.width(), empty.height()), (0, 0));
}

#[test]
fn corner_has_three_neighbours() {
    let b = numbered(3, 3);
    assert_eq!(
        sorted(b.get_neighbours((0, 0))),
        vec![((0, 1), 3), ((1, 0), 1), ((1, 1), 4)]
    );
    assert_eq!(
        sorted(b.get_neighbours((2, 2))),
        vec![((1, 1), 4), ((1, 2), 7), ((2, 1), 5)]
    );
}

#[test]
fn centre_has_eight_neighbours() {
    let b = numbered(3, 3);
    let n = sorted(b.get_neighbours((1, 1)));
    assert_eq!(n.len(), 8);
    assert!(!n.iter().any(|(p, _)| *p == (1, 1)));
}

#[test]
fn obstacles_are_not_neighbours() {
    let rows = vec![
        vec![Plot::Movable(1), Plot::Obstacle],
        vec![Plot::Obstacle, Plot::Movable(2)],
    ];
    let b = Board::from_rows(rows).unwrap();
    assert_eq!(b.get_neighbours((0, 0)), vec![((1, 1), 2)]);
}

#[test]
fn edge_neighbours_do_not_wrap() {
    // One axis in range and the other past the edge is still outside.
    let b = numbered(2, 1);
    assert_eq!(sorted(b.get_neighbours((0, 0))), vec![((1, 0), 1)]);
    assert_eq!(sorted(b.get_neighbours((1, 0))), vec![((0, 0), 0)]);
    assert_eq!(b.get_neighbours((usize::MAX, usize::MAX)), vec![]);
}
