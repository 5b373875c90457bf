use chess_algorithm::movement::{Move, MoveType};
use chess_algorithm::point::{ParseError, Point};
use chess_algorithm::record::MoveRecord;

#[test]
fn point_parses_inverted_files() {
    assert_eq!(Point::from_string("H1"), Ok(Point::new(0, 0)));
    assert_eq!(Point::from_string("A8"), Ok(Point::new(7, 7)));
    assert_eq!(Point::from_string("g2"), Ok(Point::new(1, 1)));
}

#[test]
fn point_rejects_bad_text() {
    assert_eq!(Point::from_string("I1"), Err(ParseError));
    assert_eq!(Point::from_string("A9"), Err(ParseError));
    assert_eq!(Point::from_string("A"), Err(ParseError));
    assert_eq!(Point::from_string("A12"), Err(ParseError));
    assert_eq!(Point::from_string(""), Err(ParseError));
}

#[test]
fn point_text_round_trip() {
    for x in 0..8 {
        for y in 0..8 {
            let p = Point::new(x, y);
            let text = p.to_text();
            assert_eq!(text.len(), 2);
            assert_eq!(Point::from_string(&text), Ok(p));
        }
    }
    assert_eq!(Point::new(1, 1).to_text(), "G2");
}

#[test]
fn point_add_sums_coordinates() {
    assert_eq!(Point::new(1, 2).add(Point::new(-3, 4)), Point::new(-2, 6));
}

#[test]
fn move_parses_four_characters() {
    let m = Move::from_string("g2g4").unwrap();
    assert_eq!(m.from, Point::new(1, 1));
    assert_eq!(m.to, Point::new(1, 3));
    assert_eq!(m.m_type, MoveType::SIMPLE);
    assert_eq!(Move::from_string("G2G4"), Ok(m));
}

#[test]
fn move_rejects_bad_text() {
    assert_eq!(Move::from_string("g2g"), Err(ParseError));
    assert_eq!(Move::from_string("g2g45"), Err(ParseError));
    assert_eq!(Move::from_string("z2g4"), Err(ParseError));
    assert_eq!(Move::from_string("g2g0"), Err(ParseError));
}

#[test]
fn move_record_chain() {
    let first = MoveRecord::new(3);
    assert_eq!(first.move_number, -1);
    let m = Move { from: Point::new(1, 1), to: Point::new(1, 3), m_type: MoveType::SIMPLE };
    let next = first.to_next(&m);
    assert_eq!(next.game_id, 3);
    assert_eq!(next.move_number, 0);
    assert_eq!(next.p_from, "G2");
    assert_eq!(next.p_to, "G4");
    assert_eq!(next.m_type, "SIMPLE");
    assert_eq!(next.to_move(), Ok(m));
    let t = Move { from: Point::new(0, 6), to: Point::new(0, 7), m_type: MoveType::TRANSFORM };
    assert_eq!(next.to_next(&t).m_type, "TRANSFORM");
}

#[test]
fn move_record_rejects_empty_squares() {
    assert_eq!(MoveRecord::new(1).to_move(), Err(ParseError));
}
