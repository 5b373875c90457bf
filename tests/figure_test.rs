use chess_algorithm::figure::{Color, Figure, Rank, W_KING, W_PAWN, W_QUEEN};
use std::mem;

#[test]
fn test_size_figure() {
    assert_eq!(mem::size_of::<Figure>(), 1);
}

#[test]
fn figure_test_build_figure() {
    let figure = Figure::new(Rank::KING, Color::NONE, false);
    assert_eq!(figure.rank(), Rank::KING);
}

#[test]
fn figure_test_test_build_figure() {
    let figure = Figure::new(Rank::NONE, Color::WHITE, false);
    assert_eq!(figure.rank(), Rank::NONE);
    assert_eq!(figure.color(), Color::WHITE);

    let figure = Figure::new(Rank::KING, Color::WHITE, false);
    assert_eq!(figure.rank(), Rank::KING);
    assert_eq!(figure.color(), Color::WHITE);

    let figure = Figure::new(Rank::KNIGHT, Color::BLACK, false);
    assert_eq!(figure.rank(), Rank::KNIGHT);
    assert_eq!(figure.color(), Color::BLACK);

    let figure = Figure::new(Rank::PAWN, Color::BLACK, false);
    assert_eq!(figure.rank(), Rank::PAWN);
    assert_eq!(figure.color(), Color::BLACK);
}

#[test]
fn test_weight_figure() {
    let figure = Figure::new(Rank::NONE, Color::WHITE, false);
    assert_eq!(figure.weight(), 0);

    let figure = Figure::new(Rank::PAWN, Color::WHITE, false);
    assert_eq!(figure.weight(), W_PAWN);

    let figure = Figure::new(Rank::QUEEN, Color::WHITE, false);
    assert_eq!(figure.weight(), W_QUEEN);

    let figure = Figure::new(Rank::KING, Color::WHITE, false);
    assert_eq!(figure.weight(), W_KING);
}

#[test]
fn test_flag_figure() {
    let figure = Figure::new(Rank::NONE, Color::WHITE, false);
    assert_eq!(figure.is_flag_set(), false);

    let figure = Figure::new(Rank::NONE, Color::WHITE, true);
    assert_eq!(figure.is_flag_set(), true);
}

#[test]
fn figure_byte_layout() {
    assert_eq!(Figure::new(Rank::PAWN, Color::WHITE, false).0, 6 + 64);
    assert_eq!(Figure::new(Rank::KING, Color::BLACK, true).0, 1 + 128 + 16);
    assert_eq!(Figure::empty().0, 0);
}

#[test]
fn figure_weights_of_every_rank() {
    let expected = [
        (Rank::NONE, 0),
        (Rank::KING, 90000),
        (Rank::QUEEN, 9000),
        (Rank::ROOK, 5000),
        (Rank::BISHOP, 4000),
        (Rank::KNIGHT, 3000),
        (Rank::PAWN, 1000),
        (Rank::OUT, 0),
    ];
    for (rank, w) in expected {
        assert_eq!(Figure::new(rank, Color::BLACK, false).weight(), w);
    }
}

#[test]
fn set_flag_keeps_rank_and_color() {
    let f = Figure::new(Rank::BISHOP, Color::BLACK, false).set_flag();
    assert!(f.is_flag_set());
    assert_eq!(f.rank(), Rank::BISHOP);
    assert_eq!(f.color(), Color::BLACK);
    let g = f.set_flag();
    assert_eq!(g, f);
}

#[test]
fn color_invert_swaps_sides() {
    assert_eq!(Color::WHITE.invert(), Color::BLACK);
    assert_eq!(Color::BLACK.invert(), Color::WHITE);
    assert_eq!(Color::NONE.invert(), Color::WHITEBLACK);
    assert_eq!(Color::WHITEBLACK.invert(), Color::NONE);
}
