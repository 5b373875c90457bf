use chess_algorithm::board::ByteBoard;
use chess_algorithm::figure::{Color, Figure, Rank};
use chess_algorithm::figure_list::FigurePointList;
use chess_algorithm::point::Point;

fn weights(board: &ByteBoard, list: &FigurePointList) -> Vec<i32> {
    list.iter().iter().map(|p| board.point(*p).weight()).collect()
}

#[test]
fn test_fill_is_descending_sort() {
    let board = ByteBoard::default();
    let list = FigurePointList::new(&board, Color::WHITE);
    let w = weights(&board, &list);
    assert!(w.windows(2).all(|pair| pair[1] <= pair[0]));
}

#[test]
fn test_several_iterators() {
    let mut board = ByteBoard::default();
    let mut list = FigurePointList::new(&board, Color::WHITE);

    let point = Point::new(2, 1);

    let removed_figure = *board.point(point);
    *board.point_mut(point) = Figure::new(Rank::NONE, Color::NONE, false);
    let cursor = list.node_iter().into_iter().skip_while(|lnc| lnc.point(&list) != point).next().unwrap();
    cursor.remove(&mut list);

    assert_eq!(list.node_iter().len(), 15);
    assert_eq!(weights(&board, &list).iter().sum::<i32>(), 130000);

    cursor.restore(&mut list);
    *board.point_mut(point) = removed_figure;

    assert_eq!(list.node_iter().len(), 16);
    assert_eq!(weights(&board, &list).iter().sum::<i32>(), 131000);
}

#[test]
fn fill_orders_by_weight_then_scan() {
    let mut board = ByteBoard::empty();
    *board.cell_mut(5, 5) = Figure::new(Rank::PAWN, Color::BLACK, false);
    *board.cell_mut(0, 3) = Figure::new(Rank::PAWN, Color::BLACK, false);
    *board.cell_mut(7, 7) = Figure::new(Rank::KING, Color::BLACK, false);
    *board.cell_mut(2, 2) = Figure::new(Rank::ROOK, Color::BLACK, false);
    *board.cell_mut(4, 4) = Figure::new(Rank::QUEEN, Color::WHITE, false);
    let list = FigurePointList::new(&board, Color::BLACK);
    assert_eq!(
        list.iter(),
        vec![Point::new(7, 7), Point::new(2, 2), Point::new(0, 3), Point::new(5, 5)]
    );
}

#[test]
fn fill_on_empty_board_lists_nothing() {
    let board = ByteBoard::empty();
    let list = FigurePointList::new(&board, Color::WHITE);
    assert!(list.iter().is_empty());
    assert!(list.node_iter().is_empty());
    assert!(list.find(Point::new(0, 0)).is_none());
}

#[test]
fn index_counts_cells_of_its_color() {
    let board = ByteBoard::default();
    for color in [Color::WHITE, Color::BLACK] {
        let list = FigurePointList::new(&board, color);
        let count = board.cell_iter().iter().filter(|(_, f)| f.color() == color).count();
        assert_eq!(list.iter().len(), count);
        assert_eq!(count, 16);
        for (p, f) in board.cell_iter() {
            assert_eq!(list.iter().contains(&p), f.color() == color);
        }
    }
}

#[test]
fn remove_head_and_restore() {
    let board = ByteBoard::default();
    let mut list = FigurePointList::new(&board, Color::BLACK);
    let before_nodes = list.nodes;
    let before_first = list.first;
    let head = list.node_iter()[0];
    let head_point = head.point(&list);
    head.remove(&mut list);
    assert_eq!(list.iter().len(), 15);
    assert!(!list.iter().contains(&head_point));
    head.restore(&mut list);
    assert_eq!(list.nodes, before_nodes);
    assert_eq!(list.first, before_first);
}

#[test]
fn point_set_rewrites_one_node() {
    let board = ByteBoard::default();
    let mut list = FigurePointList::new(&board, Color::WHITE);
    let c = list.find(Point::new(3, 0)).unwrap();
    c.point_set(&mut list, Point::new(3, 3));
    assert!(list.iter().contains(&Point::new(3, 3)));
    assert!(!list.iter().contains(&Point::new(3, 0)));
    assert_eq!(list.iter().len(), 16);
}
