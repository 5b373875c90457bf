use chess_algorithm::board::ByteBoard;
use chess_algorithm::board_controller::{BoardController, BoardDataHolder};
use chess_algorithm::figure::{Color, Figure, Rank};
use chess_algorithm::movement::{Move, MoveType};
use chess_algorithm::point::Point;
use chess_algorithm::score::evaluate_score;

fn snapshot(ctl: &BoardController) -> (ByteBoard, Vec<Point>, Vec<Point>, usize, usize) {
    (
        ctl.board,
        ctl.white_list.iter(),
        ctl.black_list.iter(),
        ctl.white_list.first,
        ctl.black_list.first,
    )
}

#[test]
fn transform_test() {
    let mut board = ByteBoard::empty();
    *board.cell_mut(1, 6) = Figure::new(Rank::PAWN, Color::WHITE, false);

    let movement = Move { from: Point::new(1, 6), to: Point::new(1, 7), m_type: MoveType::TRANSFORM };

    let holder = BoardDataHolder::new(&board);
    let mut controller = holder.controller(Color::WHITE);

    let info = controller.make_move(&movement);

    assert_eq!(*controller.white_list.iter().last().unwrap(), Point::new(1, 7));
    assert_eq!(*controller.board.cell(1, 6), Figure::empty());
    assert_eq!(*controller.board.cell(1, 7), Figure::new(Rank::QUEEN, Color::WHITE, false));

    controller.unmake_move(info);

    assert_eq!(board, controller.board);
    assert_eq!(*controller.white_list.iter().last().unwrap(), Point::new(1, 6));
    assert_eq!(*controller.board.cell(1, 6), Figure::new(Rank::PAWN, Color::WHITE, false));
    assert_eq!(*controller.board.cell(1, 7), Figure::empty());
}

#[test]
fn every_initial_move_unmakes_exactly() {
    for side in [Color::WHITE, Color::BLACK] {
        let mut ctl = BoardDataHolder::new(&ByteBoard::default()).controller(side);
        let nodes = (ctl.white_list.nodes, ctl.black_list.nodes);
        let start = snapshot(&ctl);
        let moves = ctl.friend_movies().iter().to_vec();
        assert_eq!(moves.len(), 20);
        for m in moves {
            let info = ctl.make_move(&m);
            assert_ne!(ctl.board, start.0);
            ctl.unmake_move(info);
            assert_eq!(snapshot(&ctl), start);
            assert_eq!((ctl.white_list.nodes, ctl.black_list.nodes), nodes);
        }
    }
}

#[test]
fn nested_moves_unmake_in_reverse() {
    let mut ctl = BoardDataHolder::new(&ByteBoard::default()).controller(Color::WHITE);
    let start = snapshot(&ctl);
    let nodes = (ctl.white_list.nodes, ctl.black_list.nodes);
    let m1 = Move { from: Point::new(4, 1), to: Point::new(4, 3), m_type: MoveType::SIMPLE };
    let m2 = Move { from: Point::new(3, 6), to: Point::new(3, 4), m_type: MoveType::SIMPLE };
    let m3 = Move { from: Point::new(4, 3), to: Point::new(3, 4), m_type: MoveType::SIMPLE };
    assert!(ctl.is_valid_move(&m1));
    let i1 = ctl.make_move(&m1);
    ctl.pass_move_to_enemy();
    assert!(ctl.is_valid_move(&m2));
    let i2 = ctl.make_move(&m2);
    ctl.pass_move_to_enemy();
    assert!(ctl.is_valid_move(&m3));
    let i3 = ctl.make_move(&m3);
    assert_eq!(ctl.black_list.iter().len(), 15);
    assert_eq!(*ctl.board.point(Point::new(3, 4)), Figure::new(Rank::PAWN, Color::WHITE, false));
    ctl.unmake_move(i3);
    ctl.pass_move_to_enemy();
    ctl.unmake_move(i2);
    ctl.pass_move_to_enemy();
    ctl.unmake_move(i1);
    assert_eq!(snapshot(&ctl), start);
    assert_eq!((ctl.white_list.nodes, ctl.black_list.nodes), nodes);
}

#[test]
fn capture_unlinks_and_restores_enemy() {
    let mut board = ByteBoard::empty();
    *board.cell_mut(1, 1) = Figure::new(Rank::ROOK, Color::WHITE, false);
    *board.cell_mut(1, 6) = Figure::new(Rank::PAWN, Color::BLACK, false);
    *board.cell_mut(7, 7) = Figure::new(Rank::KING, Color::BLACK, false);
    let mut ctl = BoardDataHolder::new(&board).controller(Color::WHITE);
    let m = Move { from: Point::new(1, 1), to: Point::new(1, 6), m_type: MoveType::SIMPLE };
    let info = ctl.make_move(&m);
    assert_eq!(ctl.black_list.iter(), vec![Point::new(7, 7)]);
    assert_eq!(ctl.white_list.iter(), vec![Point::new(1, 6)]);
    ctl.unmake_move(info);
    assert_eq!(ctl.black_list.iter(), vec![Point::new(7, 7), Point::new(1, 6)]);
    assert_eq!(ctl.board, board);
}

#[test]
fn valid_move_checks() {
    let ctl = BoardDataHolder::new(&ByteBoard::default()).controller(Color::WHITE);
    let ok = Move { from: Point::new(1, 1), to: Point::new(1, 3), m_type: MoveType::SIMPLE };
    assert!(ctl.is_valid_move(&ok));
    let too_far = Move { from: Point::new(1, 1), to: Point::new(1, 4), m_type: MoveType::SIMPLE };
    assert!(!ctl.is_valid_move(&too_far));
    let enemy = Move { from: Point::new(1, 6), to: Point::new(1, 5), m_type: MoveType::SIMPLE };
    assert!(!ctl.is_valid_move(&enemy));
    let off = Move { from: Point::new(8, 1), to: Point::new(1, 4), m_type: MoveType::SIMPLE };
    assert!(!ctl.is_valid_move(&off));
    let empty = Move { from: Point::new(3, 3), to: Point::new(3, 4), m_type: MoveType::SIMPLE };
    assert!(!ctl.is_valid_move(&empty));
    assert_eq!(ctl.point_movies(Point::new(3, 3)).len(), 0);
    assert_eq!(ctl.point_movies(Point::new(1, 0)).len(), 2);
}

#[test]
fn validate_and_make_move_only_makes_valid_moves() {
    let mut ctl = BoardDataHolder::new(&ByteBoard::default()).controller(Color::WHITE);
    let bad = Move { from: Point::new(1, 1), to: Point::new(1, 4), m_type: MoveType::SIMPLE };
    assert!(ctl.validate_and_make_move(&bad).is_none());
    assert_eq!(ctl.board, ByteBoard::default());
    let good = Move { from: Point::new(1, 0), to: Point::new(2, 2), m_type: MoveType::SIMPLE };
    let info = ctl.validate_and_make_move(&good).unwrap();
    assert_eq!(ctl.board.point(Point::new(2, 2)).rank(), Rank::KNIGHT);
    ctl.unmake_move(info);
    assert_eq!(ctl.board, ByteBoard::default());
}

#[test]
fn king_alive_and_king_capture() {
    let mut board = ByteBoard::empty();
    *board.cell_mut(0, 0) = Figure::new(Rank::ROOK, Color::WHITE, false);
    *board.cell_mut(0, 5) = Figure::new(Rank::KING, Color::BLACK, false);
    let ctl = BoardDataHolder::new(&board).controller(Color::WHITE);
    assert!(!ctl.is_king_alive());
    let moves = ctl.friend_movies();
    let eat = ctl.find_king_eat_move(&moves).unwrap();
    assert_eq!(eat.to, Point::new(0, 5));
    let mut ctl = ctl;
    ctl.pass_move_to_enemy();
    assert!(ctl.is_king_alive());
    assert_eq!(ctl.friend_color(), Color::BLACK);
    let none = ctl.find_king_eat_move(&ctl.friend_movies());
    assert!(none.is_none());
}

#[test]
fn evaluation_is_antisymmetric() {
    let mut board = ByteBoard::default();
    *board.cell_mut(3, 6) = Figure::empty();
    *board.cell_mut(0, 0) = Figure::empty();
    let mut ctl = BoardDataHolder::new(&board).controller(Color::WHITE);
    let a = evaluate_score(&ctl);
    ctl.pass_move_to_enemy();
    let b = evaluate_score(&ctl);
    assert_eq!(a + b, 0);
    assert_ne!(a, 0);
}

#[test]
fn evaluation_exact_value() {
    let mut board = ByteBoard::empty();
    *board.cell_mut(1, 1) = Figure::new(Rank::KNIGHT, Color::WHITE, false);
    *board.cell_mut(6, 6) = Figure::new(Rank::PAWN, Color::BLACK, false);
    let ctl = BoardDataHolder::new(&board).controller(Color::WHITE);
    // knight: 3000 + (64 - 64) + 8 + 7; pawn: 1000 + (128 - 64) + 48 + 2
    assert_eq!(evaluate_score(&ctl), 3015 - 1114);
}

#[test]
fn holder_round_trip() {
    let holder = BoardDataHolder::new(&ByteBoard::default());
    let ctl = holder.controller(Color::BLACK);
    assert_eq!(ctl.friend_color(), Color::BLACK);
    assert_eq!(ctl.position_counter, 0);
    let back = ctl.into_holder();
    assert_eq!(back.board, ByteBoard::default());
    assert_eq!(back.white_list.iter().len(), 16);
}

#[test]
fn swap_exchanges_and_restores() {
    let mut board = ByteBoard::empty();
    *board.cell_mut(0, 0) = Figure::new(Rank::ROOK, Color::WHITE, false);
    *board.cell_mut(3, 0) = Figure::new(Rank::KING, Color::WHITE, false);
    *board.cell_mut(5, 5) = Figure::new(Rank::PAWN, Color::BLACK, false);
    let mut ctl = BoardDataHolder::new(&board).controller(Color::WHITE);
    let start = snapshot(&ctl);

    let castle = Move { from: Point::new(3, 0), to: Point::new(0, 0), m_type: MoveType::SWAP };
    let info = ctl.make_move(&castle);
    assert_eq!(ctl.board.cell(0, 0).rank(), Rank::KING);
    assert_eq!(ctl.board.cell(3, 0).rank(), Rank::ROOK);
    let mut white = ctl.white_list.iter();
    white.sort_by_key(|p| (p.x(), p.y()));
    assert_eq!(white, vec![Point::new(0, 0), Point::new(3, 0)]);
    ctl.unmake_move(info);
    assert_eq!(snapshot(&ctl), start);

    let with_enemy = Move { from: Point::new(0, 0), to: Point::new(5, 5), m_type: MoveType::SWAP };
    let info = ctl.make_move(&with_enemy);
    assert_eq!(ctl.black_list.iter(), vec![Point::new(0, 0)]);
    assert!(ctl.white_list.iter().contains(&Point::new(5, 5)));
    ctl.unmake_move(info);
    assert_eq!(snapshot(&ctl), start);

    let to_empty = Move { from: Point::new(0, 0), to: Point::new(2, 2), m_type: MoveType::SWAP };
    let info = ctl.make_move(&to_empty);
    assert_eq!(ctl.board.cell(2, 2).rank(), Rank::ROOK);
    assert_eq!(*ctl.board.cell(0, 0), Figure::empty());
    ctl.unmake_move(info);
    assert_eq!(snapshot(&ctl), start);
}

#[test]
fn first_king_capture_is_returned() {
    let mut board = ByteBoard::empty();
    *board.cell_mut(0, 0) = Figure::new(Rank::ROOK, Color::WHITE, false);
    *board.cell_mut(7, 5) = Figure::new(Rank::QUEEN, Color::WHITE, false);
    *board.cell_mut(0, 5) = Figure::new(Rank::KING, Color::BLACK, false);
    let ctl = BoardDataHolder::new(&board).controller(Color::WHITE);
    let moves = ctl.friend_movies();
    let first = moves
        .iter()
        .iter()
        .find(|m| m.to == Point::new(0, 5))
        .copied()
        .unwrap();
    assert_eq!(first.from, Point::new(7, 5));
    assert_eq!(ctl.find_king_eat_move(&moves), Some(first));
}
