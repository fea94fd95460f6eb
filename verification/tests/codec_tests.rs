use maze_solver::coord::Coord;
use maze_solver::MazeError;

#[test]
fn parse_simple_label() {
    assert_eq!(Coord::parse("B3"), Ok(Coord { row: 2, col: 1 }));
    assert_eq!(Coord::parse("A1"), Ok(Coord { row: 0, col: 0 }));
    assert_eq!(Coord::parse("Z99"), Ok(Coord { row: 98, col: 25 }));
}

#[test]
fn parse_rejects_lowercase_letter() {
    assert_eq!(Coord::parse("a1"), Err(MazeError::MalformedCell));
}

#[test]
fn parse_rejects_row_zero() {
    assert_eq!(Coord::parse("A0"), Err(MazeError::MalformedCell));
}

#[test]
fn parse_rejects_malformed_labels() {
    assert_eq!(Coord::parse(""), Err(MazeError::MalformedCell));
    assert_eq!(Coord::parse("A"), Err(MazeError::MalformedCell));
    assert_eq!(Coord::parse("12"), Err(MazeError::MalformedCell));
    assert_eq!(Coord::parse("AB3"), Err(MazeError::MalformedCell));
    assert_eq!(Coord::parse("A1B"), Err(MazeError::MalformedCell));
    assert_eq!(Coord::parse("A+5"), Err(MazeError::MalformedCell));
    assert_eq!(Coord::parse("3A"), Err(MazeError::MalformedCell));
}

#[test]
fn parse_rejects_row_out_of_machine_range() {
    assert_eq!(
        Coord::parse("A99999999999999999999999999999"),
        Err(MazeError::MalformedCell)
    );
}

#[test]
fn format_simple_label() {
    assert_eq!(Coord { row: 2, col: 1 }.format(), "B3");
    assert_eq!(Coord { row: 0, col: 0 }.format(), "A1");
    assert_eq!(Coord { row: 9, col: 25 }.format(), "Z10");
    assert_eq!(Coord { row: 122, col: 3 }.format(), "D123");
}

#[test]
fn format_then_parse_round_trip() {
    for row in [0usize, 1, 7, 9, 10, 99, 100, 4095] {
        for col in [0usize, 1, 12, 25] {
            let c = Coord { row, col };
            assert_eq!(Coord::parse(&c.format()), Ok(c));
        }
    }
}

#[test]
fn parse_then_format_round_trip() {
    for text in ["A1", "B3", "Z99", "C10", "M1000"] {
        let c = Coord::parse(text).unwrap();
        assert_eq!(c.format(), text);
    }
}

#[test]
fn parse_accepts_leading_zero_but_format_drops_it() {
    // "A01" parses to row one, whose canonical label is "A1".
    let c = Coord::parse("A01").unwrap();
    assert_eq!(c, Coord { row: 0, col: 0 });
    assert_eq!(c.format(), "A1");
}

#[test]
fn position_round_trip() {
    for width in 1usize..=7 {
        for height in 1usize..=7 {
            for pos in 0..width * height {
                let c = Coord::from_pos(pos, width);
                assert!(c.row < height && c.col < width);
                assert_eq!(c.to_pos(width), pos);
            }
        }
    }
}

#[test]
fn position_formula() {
    assert_eq!(Coord { row: 2, col: 3 }.to_pos(10), 23);
    assert_eq!(Coord::from_pos(23, 10), Coord { row: 2, col: 3 });
    assert_eq!(Coord { row: 0, col: 0 }.to_pos(4), 0);
    assert_eq!(Coord::from_pos(11, 4), Coord { row: 2, col: 3 });
}
