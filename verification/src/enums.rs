use vstd::prelude::*;

verus! {

/// A move a bot can send to the server for one tick.
#[derive(Debug, Clone, Copy, PartialEq, Eq, Structural)]
pub enum Action {
    MoveUp,
    MoveDown,
    MoveLeft,
    MoveRight,
    PlaceBomb,
    DoNothing,
}

/// What occupies one square of the board.
#[derive(Debug, Clone, Copy, PartialEq, Eq, Structural)]
pub enum CellType {
    Air,
    Wall,
    Box,
}

impl Action {
    /// The name the server uses for this action.
    pub open spec fn wire_text(self) -> Seq<char> {
        match self {
            Action::MoveUp => "move_up"@,
            Action::MoveDown => "move_down"@,
            Action::MoveLeft => "move_left"@,
            Action::MoveRight => "move_right"@,
            Action::PlaceBomb => "place_bomb"@,
            Action::DoNothing => "nothing"@,
        }
    }

    /// The action the server name `s` stands for, if any.
    pub open spec fn from_text_spec(s: Seq<char>) -> Option<Action> {
        if s == "move_up"@ {
            Some(Action::MoveUp)
        } else if s == "move_down"@ {
            Some(Action::MoveDown)
        } else if s == "move_left"@ {
            Some(Action::MoveLeft)
        } else if s == "move_right"@ {
            Some(Action::MoveRight)
        } else if s == "place_bomb"@ {
            Some(Action::PlaceBomb)
        } else if s == "nothing"@ {
            Some(Action::DoNothing)
        } else {
            None
        }
    }

    /// The action the server name `s` stands for, if any.
    pub fn from_wire_text(s: &str) -> (a: Option<Action>)
        ensures
            a == Self::from_text_spec(s@),
    {
        if crate::text::str_equal(s, "move_up") {
            Some(Action::MoveUp)
        } else if crate::text::str_equal(s, "move_down") {
            Some(Action::MoveDown)
        } else if crate::text::str_equal(s, "move_left") {
            Some(Action::MoveLeft)
        } else if crate::text::str_equal(s, "move_right") {
            Some(Action::MoveRight)
        } else if crate::text::str_equal(s, "place_bomb") {
            Some(Action::PlaceBomb)
        } else if crate::text::str_equal(s, "nothing") {
            Some(Action::DoNothing)
        } else {
            None
        }
    }

    /// The name the server uses for this action.
    pub fn wire_name(&self) -> (s: &'static str)
        ensures
            s@ == self.wire_text(),
    {
        match self {
            Action::MoveUp => "move_up",
            Action::MoveDown => "move_down",
            Action::MoveLeft => "move_left",
            Action::MoveRight => "move_right",
            Action::PlaceBomb => "place_bomb",
            Action::DoNothing => "nothing",
        }
    }
}

impl CellType {
    /// The name the server uses for this kind of square.
    pub open spec fn wire_text(self) -> Seq<char> {
        match self {
            CellType::Air => "AIR"@,
            CellType::Wall => "WALL"@,
            CellType::Box => "BOX"@,
        }
    }

    /// The name the server uses for this kind of square.
    pub fn wire_name(&self) -> (s: &'static str)
        ensures
            s@ == self.wire_text(),
    {
        match self {
            CellType::Air => "AIR",
            CellType::Wall => "WALL",
            CellType::Box => "BOX",
        }
    }

    /// The square a textual cell encoding stands for: `WALL` and `BOX` name
    /// themselves, anything else is air.
    pub open spec fn from_text_spec(s: Seq<char>) -> CellType {
        if s == "WALL"@ {
            CellType::Wall
        } else if s == "BOX"@ {
            CellType::Box
        } else {
            CellType::Air
        }
    }

    /// The square a textual cell encoding stands for (see `from_text_spec`).
    pub fn from_wire_text(s: &str) -> (c: CellType)
        ensures
            c == Self::from_text_spec(s@),
    {
        if crate::text::str_equal(s, "WALL") {
            CellType::Wall
        } else if crate::text::str_equal(s, "BOX") {
            CellType::Box
        } else {
            CellType::Air
        }
    }

    /// The square a numeric cell encoding stands for: 0 is a wall, 2 a box, any
    /// other integer air; a number that is not a 64-bit signed integer (given as
    /// `None`) is not a cell encoding.
    pub open spec fn from_number_spec(n: Option<i64>) -> Option<CellType> {
        match n {
            Some(v) => Some(
                if v == 0 {
                    CellType::Wall
                } else if v == 2 {
                    CellType::Box
                } else {
                    CellType::Air
                },
            ),
            None => None,
        }
    }

    /// The square a numeric cell encoding stands for (see `from_number_spec`).
    pub fn from_wire_number(n: Option<i64>) -> (c: Option<CellType>)
        ensures
            c == Self::from_number_spec(n),
    {
        match n {
            Some(v) => Some(
                if v == 0 {
                    CellType::Wall
                } else if v == 2 {
                    CellType::Box
                } else {
                    CellType::Air
                },
            ),
            None => None,
        }
    }
}

/// Reading back the name of a square gives the same square.
pub proof fn law_cell_name_round_trip(c: CellType)
    ensures
        CellType::from_text_spec(c.wire_text()) == c,
{
    reveal_strlit("AIR");
    reveal_strlit("WALL");
    reveal_strlit("BOX");
    assert("AIR"@.len() != "WALL"@.len());
    assert("AIR"@[0] != "BOX"@[0]);
    assert("BOX"@.len() != "WALL"@.len());
}

/// Reading back the name of an action gives the same action.
pub proof fn law_action_name_round_trip(a: Action)
    ensures
        Action::from_text_spec(a.wire_text()) == Some(a),
{
    reveal_strlit("move_up");
    reveal_strlit("move_down");
    reveal_strlit("move_left");
    reveal_strlit("move_right");
    reveal_strlit("place_bomb");
    reveal_strlit("nothing");
    let names = seq!["move_up"@, "move_down"@, "move_left"@, "move_right"@, "place_bomb"@, "nothing"@];
    assert forall|i: int, j: int| 0 <= i < j < 6 implies names[i] != names[j] by {
        if names[i].len() == names[j].len() {
            assert(names[i][5] != names[j][5]);
        }
    }
}

/// The server's names of the actions are fixed: `move_up`, `move_down`,
/// `move_left`, `move_right`, `place_bomb` and `nothing`, each naming exactly
/// one action; a text reads as an action exactly when it is that action's name.
pub proof fn law_action_names(a: Action, s: Seq<char>)
    ensures
        a.wire_text() == "move_up"@ <==> a == Action::MoveUp,
        a.wire_text() == "move_down"@ <==> a == Action::MoveDown,
        a.wire_text() == "move_left"@ <==> a == Action::MoveLeft,
        a.wire_text() == "move_right"@ <==> a == Action::MoveRight,
        a.wire_text() == "place_bomb"@ <==> a == Action::PlaceBomb,
        a.wire_text() == "nothing"@ <==> a == Action::DoNothing,
        Action::from_text_spec(s) == Some(a) <==> s == a.wire_text(),
{
    reveal_strlit("move_up");
    reveal_strlit("move_down");
    reveal_strlit("move_left");
    reveal_strlit("move_right");
    reveal_strlit("place_bomb");
    reveal_strlit("nothing");
    let names = seq!["move_up"@, "move_down"@, "move_left"@, "move_right"@, "place_bomb"@, "nothing"@];
    assert forall|i: int, j: int| 0 <= i < j < 6 implies names[i] != names[j] by {
        if names[i].len() == names[j].len() {
            assert(names[i][5] != names[j][5]);
        }
    }
    assert(names[0] == "move_up"@);
    assert(names[1] == "move_down"@);
    assert(names[2] == "move_left"@);
    assert(names[3] == "move_right"@);
    assert(names[4] == "place_bomb"@);
    assert(names[5] == "nothing"@);
}

/// The server's names of the squares are fixed: `AIR`, `WALL` and `BOX`, each
/// naming exactly one kind of square.
pub proof fn law_cell_names(c: CellType)
    ensures
        c.wire_text() == "AIR"@ <==> c == CellType::Air,
        c.wire_text() == "WALL"@ <==> c == CellType::Wall,
        c.wire_text() == "BOX"@ <==> c == CellType::Box,
{
    reveal_strlit("AIR");
    reveal_strlit("WALL");
    reveal_strlit("BOX");
    assert("AIR"@.len() != "WALL"@.len());
    assert("AIR"@[0] != "BOX"@[0]);
    assert("BOX"@.len() != "WALL"@.len());
}

} // verus!
