use chess_algorithm::board::ByteBoard;
use chess_algorithm::board_controller::BoardDataHolder;
use chess_algorithm::figure::{Color, Figure, Rank, W_INFINITY};
use chess_algorithm::movement::{Move, MoveType};
use chess_algorithm::point::Point;
use chess_algorithm::score::{
    alpha_betta, material_fn, min_max_simple, simple_positional_fn, AlphaBetaSearch, MinMaxSimpleSearch,
    MoveSearch,
};

#[test]
fn test_simple_min_max() {
    let mut board = ByteBoard::empty();
    *board.cell_mut(1, 6) = Figure::new(Rank::PAWN, Color::WHITE, false);

    let holder = BoardDataHolder::new(&board);
    let mut controller = holder.controller(Color::WHITE);
    let (_, best) = min_max_simple(&mut controller, 4);
    assert_eq!(best, Some(Move { from: Point::new(1, 6), to: Point::new(1, 7), m_type: MoveType::TRANSFORM }));
    assert_eq!(controller.board, board);
}

#[test]
fn test_linked_list_in_recursion() {
    let mut board = ByteBoard::empty();
    *board.cell_mut(1, 1) = Figure::new(Rank::KNIGHT, Color::WHITE, false);
    *board.cell_mut(1, 2) = Figure::new(Rank::BISHOP, Color::WHITE, false);
    *board.cell_mut(6, 6) = Figure::new(Rank::KING, Color::BLACK, false);
    *board.cell_mut(6, 7) = Figure::new(Rank::ROOK, Color::BLACK, false);
    *board.cell_mut(4, 4) = Figure::new(Rank::PAWN, Color::BLACK, false);

    let holder = BoardDataHolder::new(&board);
    let mut ctl = holder.controller(Color::WHITE);
    let white = (ctl.white_list.nodes, ctl.white_list.first, ctl.white_list.iter());
    let black = (ctl.black_list.nodes, ctl.black_list.first, ctl.black_list.iter());

    min_max_simple(&mut ctl, 4);

    assert_eq!(ctl.board, board);
    assert_eq!((ctl.white_list.nodes, ctl.white_list.first, ctl.white_list.iter()), white);
    assert_eq!((ctl.black_list.nodes, ctl.black_list.first, ctl.black_list.iter()), black);
    assert!(ctl.position_counter > 0);
    assert_eq!(ctl.friend_color(), Color::WHITE);
}

#[test]
fn initial_position_searches_agree() {
    let board = ByteBoard::default();
    let mut plain = BoardDataHolder::new(&board).controller(Color::WHITE);
    let mut pruned = BoardDataHolder::new(&board).controller(Color::WHITE);
    let a = min_max_simple(&mut plain, 4);
    let b = alpha_betta(&mut pruned, 4, -W_INFINITY, W_INFINITY);
    assert_eq!(a.0, b.0);
    assert!(pruned.position_counter < plain.position_counter);
    assert_eq!(plain.board, board);
    assert_eq!(pruned.board, board);
}

#[test]
fn depth_zero_is_static_score() {
    let board = ByteBoard::default();
    let mut ctl = BoardDataHolder::new(&board).controller(Color::WHITE);
    // white: 131000 + 136 positional; black: 131000 + 1928 positional
    let r = min_max_simple(&mut ctl, 0);
    assert_eq!(r, (-1792, None));
    assert_eq!(ctl.position_counter, 1);
    let r = alpha_betta(&mut ctl, -3, -W_INFINITY, W_INFINITY);
    assert_eq!(r, (-1792, None));
    assert_eq!(ctl.position_counter, 2);
}

#[test]
fn search_takes_a_hanging_queen() {
    let mut board = ByteBoard::empty();
    *board.cell_mut(0, 0) = Figure::new(Rank::ROOK, Color::WHITE, false);
    *board.cell_mut(0, 5) = Figure::new(Rank::QUEEN, Color::BLACK, false);
    *board.cell_mut(7, 7) = Figure::new(Rank::KING, Color::BLACK, false);
    *board.cell_mut(7, 0) = Figure::new(Rank::KING, Color::WHITE, false);
    let take = Some(Move { from: Point::new(0, 0), to: Point::new(0, 5), m_type: MoveType::SIMPLE });
    let mut ctl = BoardDataHolder::new(&board).controller(Color::WHITE);
    assert_eq!(min_max_simple(&mut ctl, 1).1, take);
    assert_eq!(alpha_betta(&mut ctl, 1, -W_INFINITY, W_INFINITY).1, take);
    assert_eq!(MinMaxSimpleSearch::default().find_best_move(&mut ctl, 2).1, take);
    assert_eq!(AlphaBetaSearch::default().find_best_move(&mut ctl, 2).1, take);
}

#[test]
fn no_moves_means_no_best_move() {
    let mut board = ByteBoard::empty();
    *board.cell_mut(0, 0) = Figure::new(Rank::PAWN, Color::WHITE, false);
    *board.cell_mut(0, 1) = Figure::new(Rank::PAWN, Color::BLACK, false);
    let mut ctl = BoardDataHolder::new(&board).controller(Color::WHITE);
    assert_eq!(min_max_simple(&mut ctl, 2), (-W_INFINITY, None));
    assert_eq!(alpha_betta(&mut ctl, 2, -W_INFINITY, W_INFINITY), (-W_INFINITY, None));
}

#[test]
fn positional_and_material_values() {
    let white_rook = Figure::new(Rank::ROOK, Color::WHITE, false);
    let black_rook = Figure::new(Rank::ROOK, Color::BLACK, false);
    assert_eq!(simple_positional_fn(Point::new(0, 0), white_rook), 8);
    assert_eq!(simple_positional_fn(Point::new(7, 7), white_rook), 57);
    assert_eq!(simple_positional_fn(Point::new(0, 0), black_rook), 72);
    assert_eq!(material_fn(Point::new(0, 0), black_rook), 5000);
}

#[test]
fn leaves_are_counted_exactly() {
    let mut board = ByteBoard::empty();
    *board.cell_mut(0, 0) = Figure::new(Rank::KING, Color::WHITE, false);
    *board.cell_mut(7, 7) = Figure::new(Rank::KING, Color::BLACK, false);
    let mut ctl = BoardDataHolder::new(&board).controller(Color::WHITE);
    min_max_simple(&mut ctl, 1);
    assert_eq!(ctl.position_counter, 3);
    min_max_simple(&mut ctl, 2);
    assert_eq!(ctl.position_counter, 3 + 3 * 3);
    let mut pruned = BoardDataHolder::new(&board).controller(Color::WHITE);
    alpha_betta(&mut pruned, 1, -W_INFINITY, W_INFINITY);
    assert!(pruned.position_counter >= 1 && pruned.position_counter <= 6);
}

#[test]
fn counter_stops_at_its_limit() {
    let mut ctl = BoardDataHolder::new(&ByteBoard::default()).controller(Color::WHITE);
    ctl.position_counter = i32::MAX - 1;
    min_max_simple(&mut ctl, 1);
    assert_eq!(ctl.position_counter, i32::MAX);
}

#[test]
fn positional_bias_off_the_board() {
    let f = Figure::new(Rank::PAWN, Color::BLACK, false);
    assert_eq!(simple_positional_fn(Point::new(-128, 127), f), 64 + 8 * 127 + 136);
}
