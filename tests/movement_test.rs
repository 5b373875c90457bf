use chess_algorithm::board::ByteBoard;
use chess_algorithm::board_controller::BoardDataHolder;
use chess_algorithm::figure::{Color, Figure, Rank};
use chess_algorithm::figure_list::FigurePointList;
use chess_algorithm::movement::{Move, MoveGenerator, MoveList, MoveType};
use chess_algorithm::point::Point;
use chess_algorithm::score::simple_positional_fn;
use std::collections::HashSet;

struct MovementFixture {
    board: ByteBoard,
    white_list: FigurePointList,
    black_list: FigurePointList,
    move_list: MoveList,
}

impl MovementFixture {
    fn new() -> MovementFixture {
        MovementFixture {
            board: ByteBoard::empty(),
            white_list: FigurePointList::default(),
            black_list: FigurePointList::default(),
            move_list: MoveList::default(),
        }
    }

    fn generate_figure_movies(&mut self, x: i8, y: i8) -> &MoveList {
        MoveGenerator::new(&self.board, &self.white_list).fill_for_figure(Point::new(x, y), &mut self.move_list);
        &self.move_list
    }

    fn generate_white_movies(&mut self) -> &MoveList {
        self.white_list.fill(&self.board, Color::WHITE);
        MoveGenerator::new(&self.board, &self.white_list).fill(&mut self.move_list);
        &self.move_list
    }

    fn generate_black_movies(&mut self) -> &MoveList {
        self.black_list.fill(&self.board, Color::BLACK);
        MoveGenerator::new(&self.board, &self.black_list).fill(&mut self.move_list);
        &self.move_list
    }

    fn sort_moves(&mut self) {
        self.move_list.sort_by(&self.board);
    }
}

fn targets(list: &MoveList) -> HashSet<Point> {
    list.iter().iter().map(|m| m.to).collect()
}

fn key(board: &ByteBoard, m: &Move) -> i32 {
    let f = *board.point(m.from);
    simple_positional_fn(m.to, f) - simple_positional_fn(m.from, f) + board.point(m.to).weight()
}

#[test]
fn test_pointers() {
    let data_holder = BoardDataHolder::new(&ByteBoard::default());
    let controller = data_holder.controller(Color::WHITE);
    let move_list = MoveList::default();
    assert!(controller.is_king_alive());
    assert_eq!(move_list.iter().iter().count(), 0);
}

#[test]
fn test_generate_king_movies_without_outs() {
    let mut expected_movies = HashSet::new();
    expected_movies.insert(Point::new(0, 0));
    expected_movies.insert(Point::new(1, 0));
    expected_movies.insert(Point::new(2, 0));
    expected_movies.insert(Point::new(2, 1));
    expected_movies.insert(Point::new(2, 2));
    expected_movies.insert(Point::new(1, 2));
    expected_movies.insert(Point::new(0, 2));
    expected_movies.insert(Point::new(0, 1));

    let mut fixture = MovementFixture::new();
    *fixture.board.cell_mut(1, 1) = Figure::new(Rank::KING, Color::WHITE, false);
    let movies = targets(fixture.generate_white_movies());

    assert_eq!(movies, expected_movies);
}

#[test]
fn test_generate_king_movies_from_conner() {
    let mut expected_movies = HashSet::new();
    expected_movies.insert(Point::new(1, 0));
    expected_movies.insert(Point::new(1, 1));
    expected_movies.insert(Point::new(0, 1));

    let mut fixture = MovementFixture::new();
    *fixture.board.cell_mut(0, 0) = Figure::new(Rank::KING, Color::WHITE, false);
    let movies = targets(fixture.generate_white_movies());

    assert_eq!(movies, expected_movies);
    assert_eq!(fixture.move_list.len(), 3);
}

#[test]
fn test_generate_king_movies_with_friend_figure() {
    let mut expected_movies = HashSet::new();
    expected_movies.insert(Point::new(1, 0));
    expected_movies.insert(Point::new(0, 1));

    let mut fixture = MovementFixture::new();
    *fixture.board.cell_mut(0, 0) = Figure::new(Rank::KING, Color::WHITE, false);
    *fixture.board.cell_mut(1, 1) = Figure::new(Rank::PAWN, Color::WHITE, false);
    let movies = targets(fixture.generate_figure_movies(0, 0));

    assert_eq!(movies, expected_movies);
}

#[test]
fn test_rook_movies() {
    let mut expected_movies = HashSet::new();
    for y in 0..8 {
        if y == 1 {
            continue;
        }
        expected_movies.insert(Point::new(1, y));
    }
    for x in 0..8 {
        if x == 1 {
            continue;
        }
        expected_movies.insert(Point::new(x, 1));
    }

    let mut fixture = MovementFixture::new();
    *fixture.board.cell_mut(1, 1) = Figure::new(Rank::ROOK, Color::WHITE, false);
    let movies = targets(fixture.generate_figure_movies(1, 1));

    assert_eq!(movies, expected_movies);
    assert_eq!(fixture.move_list.len(), 14);
}

#[test]
fn test_rook_eat() {
    let mut fixture = MovementFixture::new();
    *fixture.board.cell_mut(1, 1) = Figure::new(Rank::ROOK, Color::WHITE, false);
    *fixture.board.cell_mut(1, 6) = Figure::new(Rank::PAWN, Color::BLACK, false);
    let movies: HashSet<Move> = fixture.generate_figure_movies(1, 1).iter().iter().copied().collect();

    assert!(movies.contains(&Move { from: Point::new(1, 1), to: Point::new(1, 6), m_type: MoveType::SIMPLE }));
    assert!(!movies.contains(&Move { from: Point::new(1, 1), to: Point::new(1, 7), m_type: MoveType::SIMPLE }));
}

#[test]
fn test_generate_queen_take() {
    let mut fixture = MovementFixture::new();
    *fixture.board.cell_mut(1, 1) = Figure::new(Rank::QUEEN, Color::WHITE, false);
    *fixture.board.cell_mut(1, 6) = Figure::new(Rank::PAWN, Color::BLACK, false);
    let movies: HashSet<Move> = fixture.generate_figure_movies(1, 1).iter().iter().copied().collect();

    assert!(movies.contains(&Move { from: Point::new(1, 1), to: Point::new(1, 6), m_type: MoveType::SIMPLE }));
}

#[test]
fn test_pawn_first_moves() {
    let mut expected_movies = HashSet::new();
    expected_movies.insert(Point::new(1, 2));
    expected_movies.insert(Point::new(1, 3));

    let mut fixture = MovementFixture::new();
    *fixture.board.cell_mut(1, 1) = Figure::new(Rank::PAWN, Color::WHITE, false);
    let movies = targets(fixture.generate_figure_movies(1, 1));

    assert_eq!(movies, expected_movies);
}

#[test]
fn test_pawn_first_moves_with_let() {
    let mut expected_movies = HashSet::new();

    let mut fixture = MovementFixture::new();
    *fixture.board.cell_mut(1, 1) = Figure::new(Rank::PAWN, Color::WHITE, false);
    *fixture.board.cell_mut(1, 2) = Figure::new(Rank::PAWN, Color::BLACK, false);
    assert_eq!(fixture.generate_figure_movies(1, 1).iter().iter().map(|m| m.to).count(), 0);

    expected_movies.insert(Point::new(1, 2));

    *fixture.board.cell_mut(1, 2) = Figure::new(Rank::NONE, Color::NONE, false);
    *fixture.board.cell_mut(1, 3) = Figure::new(Rank::PAWN, Color::BLACK, false);

    let movies = targets(fixture.generate_figure_movies(1, 1));
    assert_eq!(movies, expected_movies);
    assert_eq!(fixture.move_list.len(), 1);
}

#[test]
fn test_pawn_transform() {
    let mut expected_movies = HashSet::new();
    let from_p = Point::new(1, 6);

    expected_movies.insert(Move { from: from_p, to: Point::new(1, 7), m_type: MoveType::TRANSFORM });

    let mut fixture = MovementFixture::new();
    *fixture.board.cell_mut(1, 6) = Figure::new(Rank::PAWN, Color::WHITE, false);
    let movies: HashSet<Move> = fixture.generate_figure_movies(from_p.x(), from_p.y()).iter().iter().copied().collect();

    assert_eq!(movies, expected_movies);
}

#[test]
fn test_is_movement_list_descending_sort() {
    let mut fixture = MovementFixture::new();
    *fixture.board.cell_mut(1, 1) = Figure::new(Rank::QUEEN, Color::WHITE, false);
    *fixture.board.cell_mut(2, 5) = Figure::new(Rank::PAWN, Color::WHITE, false);
    *fixture.board.cell_mut(1, 6) = Figure::new(Rank::PAWN, Color::BLACK, false);

    fixture.generate_white_movies();
    let before: Vec<Move> = fixture.move_list.iter().to_vec();
    fixture.sort_moves();

    let scores: Vec<i32> = fixture.move_list.iter().iter().map(|m| key(&fixture.board, m)).collect();
    assert!(scores.windows(2).all(|w| w[1] <= w[0]));
    let mut a = before.clone();
    let mut b = fixture.move_list.iter().to_vec();
    a.sort_by_key(|m| (m.from.x(), m.from.y(), m.to.x(), m.to.y()));
    b.sort_by_key(|m| (m.from.x(), m.from.y(), m.to.x(), m.to.y()));
    assert_eq!(a, b);
    // the capture of the pawn comes first
    assert_eq!(fixture.move_list.iter()[0].to, Point::new(1, 6));
}

#[test]
fn sort_keeps_order_of_equal_keys() {
    let mut fixture = MovementFixture::new();
    *fixture.board.cell_mut(3, 3) = Figure::new(Rank::KING, Color::WHITE, false);
    fixture.generate_white_movies();
    let before: Vec<Move> = fixture.move_list.iter().to_vec();
    fixture.sort_moves();
    let after: Vec<Move> = fixture.move_list.iter().to_vec();
    for k in -20..20 {
        let a: Vec<&Move> = before.iter().filter(|m| key(&fixture.board, m) == k).collect();
        let b: Vec<&Move> = after.iter().filter(|m| key(&fixture.board, m) == k).collect();
        assert_eq!(a, b);
    }
}

#[test]
fn black_pawn_moves_down() {
    let mut fixture = MovementFixture::new();
    *fixture.board.cell_mut(4, 6) = Figure::new(Rank::PAWN, Color::BLACK, false);
    *fixture.board.cell_mut(5, 5) = Figure::new(Rank::KNIGHT, Color::WHITE, false);
    let movies: HashSet<Point> = targets(fixture.generate_black_movies());
    let expected: HashSet<Point> = [Point::new(5, 5), Point::new(4, 5), Point::new(4, 4)].into_iter().collect();
    assert_eq!(movies, expected);
}

#[test]
fn black_pawn_promotes_on_first_rank() {
    let mut fixture = MovementFixture::new();
    *fixture.board.cell_mut(2, 1) = Figure::new(Rank::PAWN, Color::BLACK, false);
    let moves = fixture.generate_black_movies().iter().to_vec();
    assert_eq!(moves, vec![Move { from: Point::new(2, 1), to: Point::new(2, 0), m_type: MoveType::TRANSFORM }]);
}

#[test]
fn knight_in_corner() {
    let mut fixture = MovementFixture::new();
    *fixture.board.cell_mut(0, 0) = Figure::new(Rank::KNIGHT, Color::WHITE, false);
    let expected: HashSet<Point> = [Point::new(1, 2), Point::new(2, 1)].into_iter().collect();
    assert_eq!(targets(fixture.generate_white_movies()), expected);
}

#[test]
fn bishop_stops_at_blockers() {
    let mut fixture = MovementFixture::new();
    *fixture.board.cell_mut(3, 3) = Figure::new(Rank::BISHOP, Color::WHITE, false);
    *fixture.board.cell_mut(5, 5) = Figure::new(Rank::PAWN, Color::WHITE, false);
    *fixture.board.cell_mut(1, 1) = Figure::new(Rank::PAWN, Color::BLACK, false);
    let got = targets(fixture.generate_figure_movies(3, 3));
    let expected: HashSet<Point> = [
        Point::new(4, 4),
        Point::new(2, 2),
        Point::new(1, 1),
        Point::new(2, 4),
        Point::new(1, 5),
        Point::new(0, 6),
        Point::new(4, 2),
        Point::new(5, 1),
        Point::new(6, 0),
    ]
    .into_iter()
    .collect();
    assert_eq!(got, expected);
}

#[test]
fn generated_moves_never_land_on_own_color() {
    let board = ByteBoard::default();
    for color in [Color::WHITE, Color::BLACK] {
        let list = FigurePointList::new(&board, color);
        let moves = MoveList::new(&MoveGenerator::new(&board, &list));
        assert_eq!(moves.len(), 20);
        for m in moves.iter() {
            assert_eq!(board.point(m.from).color(), color);
            assert_ne!(board.point(m.to).color(), color);
            assert!(m.to.x() >= 0 && m.to.x() < 8 && m.to.y() >= 0 && m.to.y() < 8);
        }
    }
}

#[test]
fn double_push_needs_both_squares_empty() {
    let mut fixture = MovementFixture::new();
    *fixture.board.cell_mut(3, 1) = Figure::new(Rank::PAWN, Color::WHITE, false);
    *fixture.board.cell_mut(3, 3) = Figure::new(Rank::KNIGHT, Color::BLACK, false);
    let got = targets(fixture.generate_figure_movies(3, 1));
    let expected: HashSet<Point> = [Point::new(3, 2)].into_iter().collect();
    assert_eq!(got, expected);

    let mut fixture = MovementFixture::new();
    *fixture.board.cell_mut(3, 2) = Figure::new(Rank::PAWN, Color::WHITE, false);
    let got = targets(fixture.generate_figure_movies(3, 2));
    let expected: HashSet<Point> = [Point::new(3, 3)].into_iter().collect();
    assert_eq!(got, expected);
}

#[test]
fn move_if_not_out_reads_the_border() {
    let board = ByteBoard::empty();
    let list = FigurePointList::default();
    let g = MoveGenerator::new(&board, &list);
    assert_eq!(g.move_if_not_out(Point::new(0, 0), -1, 0), None);
    assert_eq!(g.move_if_not_out(Point::new(0, 0), 1, 2), Some(Point::new(1, 2)));
}
