//! The textual record of a played move, as the move history stores it.

use vstd::prelude::*;
use crate::movement::{Move, MoveType};
use crate::point::{ParseError, Point, is_square_text, parses_to};

verus! {

pub open spec fn file_char(x: int) -> char {
    if x == 0 {
        'H'
    } else if x == 1 {
        'G'
    } else if x == 2 {
        'F'
    } else if x == 3 {
        'E'
    } else if x == 4 {
        'D'
    } else if x == 5 {
        'C'
    } else if x == 6 {
        'B'
    } else {
        'A'
    }
}

pub open spec fn rank_char(y: int) -> char {
    if y == 0 {
        '1'
    } else if y == 1 {
        '2'
    } else if y == 2 {
        '3'
    } else if y == 3 {
        '4'
    } else if y == 4 {
        '5'
    } else if y == 5 {
        '6'
    } else if y == 6 {
        '7'
    } else {
        '8'
    }
}

/// The two characters of an on-board point: file (0 is `H`), then rank.
pub open spec fn square_text(p: Point) -> Seq<char> {
    seq![file_char(p.x as int), rank_char(p.y as int)]
}

pub open spec fn type_text(t: MoveType) -> Seq<char> {
    match t {
        MoveType::SIMPLE => seq!['S', 'I', 'M', 'P', 'L', 'E'],
        MoveType::SWAP => seq!['S', 'W', 'A', 'P'],
        MoveType::TRANSFORM => seq!['T', 'R', 'A', 'N', 'S', 'F', 'O', 'R', 'M'],
    }
}

impl Point {
    /// The point as two characters, such as `G2` for `(1, 1)`.
    pub fn to_text(&self) -> (r: String)
        requires
            self.on_board(),
        ensures
            r@ == square_text(*self),
    {
        let file: &str = match self.x {
            0 => "H",
            1 => "G",
            2 => "F",
            3 => "E",
            4 => "D",
            5 => "C",
            6 => "B",
            _ => "A",
        };
        let rank: &str = match self.y {
            0 => "1",
            1 => "2",
            2 => "3",
            3 => "4",
            4 => "5",
            5 => "6",
            6 => "7",
            _ => "8",
        };
        proof {
            reveal_strlit("H");
            reveal_strlit("G");
            reveal_strlit("F");
            reveal_strlit("E");
            reveal_strlit("D");
            reveal_strlit("C");
            reveal_strlit("B");
            reveal_strlit("A");
            reveal_strlit("1");
            reveal_strlit("2");
            reveal_strlit("3");
            reveal_strlit("4");
            reveal_strlit("5");
            reveal_strlit("6");
            reveal_strlit("7");
            reveal_strlit("8");
        }
        let s = file.to_string();
        let r = s.concat(rank);
        assert(r@ =~= square_text(*self));
        r
    }
}

impl MoveType {
    /// The type's name.
    pub fn to_text(&self) -> (r: String)
        ensures
            r@ == type_text(*self),
    {
        let t: &str = match self {
            MoveType::SIMPLE => "SIMPLE",
            MoveType::SWAP => "SWAP",
            MoveType::TRANSFORM => "TRANSFORM",
        };
        proof {
            reveal_strlit("SIMPLE");
            reveal_strlit("SWAP");
            reveal_strlit("TRANSFORM");
        }
        let r = t.to_string();
        assert(r@ =~= type_text(*self));
        r
    }
}

/// One row of a game's move history.
#[derive(Debug)]
pub struct MoveRecord {
    pub game_id: i32,
    pub move_number: i32,
    pub p_from: String,
    pub p_to: String,
    pub m_type: String,
}

impl MoveRecord {
    /// The record before a game's first move: number -1, no squares.
    pub fn new(game_id: i32) -> (r: MoveRecord)
        ensures
            r.game_id == game_id,
            r.move_number == -1,
            r.p_from@ == Seq::<char>::empty(),
            r.p_to@ == Seq::<char>::empty(),
            r.m_type@ == Seq::<char>::empty(),
    {
        MoveRecord {
            game_id,
            move_number: -1,
            p_from: String::new(),
            p_to: String::new(),
            m_type: String::new(),
        }
    }

    /// The record of `movement`, played after this one.
    pub fn to_next(&self, movement: &Move) -> (r: MoveRecord)
        requires
            self.move_number < i32::MAX,
            movement.from.on_board(),
            movement.to.on_board(),
        ensures
            r.game_id == self.game_id,
            r.move_number == self.move_number + 1,
            r.p_from@ == square_text(movement.from),
            r.p_to@ == square_text(movement.to),
            r.m_type@ == type_text(movement.m_type),
    {
        MoveRecord {
            game_id: self.game_id,
            move_number: self.move_number + 1,
            p_from: movement.from.to_text(),
            p_to: movement.to.to_text(),
            m_type: movement.m_type.to_text(),
        }
    }

    /// The move the record names; the type is not read back.
    pub fn to_move(&self) -> (r: Result<Move, ParseError>)
        ensures
            r.is_ok() <==> is_square_text(self.p_from@) && is_square_text(self.p_to@),
            r matches Ok(m) ==> parses_to(self.p_from@, m.from) && parses_to(self.p_to@, m.to)
                && m.m_type == MoveType::SIMPLE,
    {
        let from = Point::from_string(self.p_from.as_str())?;
        let to = Point::from_string(self.p_to.as_str())?;
        Ok(Move { from, to, m_type: MoveType::SIMPLE })
    }
}

} // verus!
