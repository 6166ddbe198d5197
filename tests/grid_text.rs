use gridpath::board::Plot;

#[test]
fn numbers_are_costs() {
    assert_eq!(Plot::parse(b"7"), Plot::Movable(7));
    assert_eq!(Plot::parse(b"  42 "), Plot::Movable(42));
    assert_eq!(Plot::parse(b"+3"), Plot::Movable(3));
    assert_eq!(Plot::parse(b"007"), Plot::Movable(7));
    assert_eq!(Plot::parse(b"4294967295"), Plot::Movable(u32::MAX));
}

#[test]
fn x_is_an_obstacle() {
    assert_eq!(Plot::parse(b"X"), Plot::Obstacle);
    assert_eq!(Plot::parse(b"\tX\r"), Plot::Obstacle);
}

#[test]
fn anything_else_is_free() {
    assert_eq!(Plot::parse(b""), Plot::Movable(0));
    assert_eq!(Plot::parse(b"   "), Plot::Movable(0));
    assert_eq!(Plot::parse(b"x"), Plot::Movable(0));
    assert_eq!(Plot::parse(b"XX"), Plot::Movable(0));
    assert_eq!(Plot::parse(b"+"), Plot::Movable(0));
    assert_eq!(Plot::parse(b"-1"), Plot::Movable(0));
    assert_eq!(Plot::parse(b"1 2"), Plot::Movable(0));
    assert_eq!(Plot::parse(b"4294967296"), Plot::Movable(0));
    assert_eq!(Plot::parse(b"99999999999999999999999"), Plot::Movable(0));
}

#[test]
fn parse_agrees_with_std_on_ascii() {
    for raw in ["12", " 5 ", "+9", "X", "abc", "", "1x", "4294967296", "0"] {
        let expected = match raw.trim().parse::<u32>() {
            Ok(n) => Plot::Movable(n),
            Err(_) if raw.trim() == "X" => Plot::Obstacle,
            Err(_) => Plot::Movable(0),
        };
        assert_eq!(Plot::parse(raw.as_bytes()), expected, "{:?}", raw);
    }
}

#[test]
fn text_grid_rows_and_cells() {
    let b = gridpath::board::Board::from_text(b"1,2,X\n4, 5 ,6\n").unwrap();
    assert_eq!((b.width(), b.height()), (3, 2));
    assert_eq!(b.plot((2, 0)), Plot::Obstacle);
    assert_eq!(b.plot((1, 1)), Plot::Movable(5));
    assert_eq!(b.plot((0, 1)), Plot::Movable(4));
}

#[test]
fn text_grid_crlf_and_no_final_newline() {
    let b = gridpath::board::Board::from_text(b"1,2\r\n3,4").unwrap();
    assert_eq!((b.width(), b.height()), (2, 2));
    assert_eq!(b.plot((1, 0)), Plot::Movable(2));
    assert_eq!(b.plot((1, 1)), Plot::Movable(4));
}

#[test]
fn text_grid_width_mismatch() {
    assert!(gridpath::board::Board::from_text(b"1,2,3\n4,5\n").is_none());
}

#[test]
fn text_grid_empty_and_blank_lines() {
    let b = gridpath::board::Board::from_text(b"").unwrap();
    assert_eq!((b.width(), b.height()), (0, 0));
    // A blank line is one free cell.
    let b = gridpath::board::Board::from_text(b"7\n\n").unwrap();
    assert_eq!((b.width(), b.height()), (1, 2));
    assert_eq!(b.plot((0, 1)), Plot::Movable(0));
}

#[test]
fn text_grid_search_end_to_end() {
    let b = gridpath::board::Board::from_text(b"1,1,1\n1,X,1\n1,1,1\n").unwrap();
    let path = gridpath::astar::search(b, (0, 0), (2, 2)).unwrap().unwrap();
    assert_eq!(path.len(), 4);
    assert!(!path.contains(&(1, 1)));
}

#[test]
fn only_ascii_whitespace_is_trimmed() {
    assert_eq!(Plot::parse("\u{a0}5".as_bytes()), Plot::Movable(0));
    assert_eq!(Plot::parse(b"\x0b5\x0c"), Plot::Movable(5));
}
