use vstd::prelude::*;

use crate::bimap::{map_after_insert, BiMap};

verus! {

/// Character drawn for the first player's territory.
pub const P1_CHAR: char = '@';

/// Character drawn for the second player's territory.
pub const P2_CHAR: char = '$';

/// Character drawn for the first player's most recent piece.
pub const P1_LATEST_CHAR: char = 'a';

/// Character drawn for the second player's most recent piece.
pub const P2_LATEST_CHAR: char = 's';

/// Character drawn for an unclaimed cell.
pub const EMPTY_CHAR: char = '.';

/// Character that marks an occupied cell of a piece.
pub const NEW_PIECE_CHAR: char = 'O';

/// What a cell of the field holds, seen from the local player.
#[derive(Clone, Copy, PartialEq, Eq, Debug, Hash, Structural)]
pub enum CellRole {
    Empty,
    OwnSymbol,
    OpponentSymbol,
    OwnLatestMove,
    OpponentLatestMove,
}

/// The characters that stand for each side, as the local player sees them.
pub struct Chars {
    pub own_char: char,
    pub own_latest_char: char,
    pub opponent_char: char,
    pub opponent_latest_char: char,
}

/// The territory character of the player with identity `own_id`: the first
/// player is identity 1, any other identity is the second player.
pub open spec fn own_char_of(own_id: u8) -> char {
    if own_id == 1 { P1_CHAR } else { P2_CHAR }
}

pub open spec fn opponent_char_of(own_id: u8) -> char {
    if own_id == 1 { P2_CHAR } else { P1_CHAR }
}

pub open spec fn own_latest_char_of(own_id: u8) -> char {
    if own_id == 1 { P1_LATEST_CHAR } else { P2_LATEST_CHAR }
}

pub open spec fn opponent_latest_char_of(own_id: u8) -> char {
    if own_id == 1 { P2_LATEST_CHAR } else { P1_LATEST_CHAR }
}

/// The role that character `c` stands for, for the player with identity
/// `own_id`; `None` for a character outside the five symbols.
pub open spec fn role_of_char(own_id: u8, c: char) -> Option<CellRole> {
    if c == EMPTY_CHAR {
        Some(CellRole::Empty)
    } else if c == own_char_of(own_id) {
        Some(CellRole::OwnSymbol)
    } else if c == opponent_char_of(own_id) {
        Some(CellRole::OpponentSymbol)
    } else if c == own_latest_char_of(own_id) {
        Some(CellRole::OwnLatestMove)
    } else if c == opponent_latest_char_of(own_id) {
        Some(CellRole::OpponentLatestMove)
    } else {
        None
    }
}

/// The character that stands for `role` for the player with identity
/// `own_id`.
pub open spec fn char_of_role(own_id: u8, role: CellRole) -> char {
    match role {
        CellRole::Empty => EMPTY_CHAR,
        CellRole::OwnSymbol => own_char_of(own_id),
        CellRole::OpponentSymbol => opponent_char_of(own_id),
        CellRole::OwnLatestMove => own_latest_char_of(own_id),
        CellRole::OpponentLatestMove => opponent_latest_char_of(own_id),
    }
}

/// The five pairs of the symbol table, put one after another into `m`.
pub open spec fn table_after_populate(m: Map<char, CellRole>, own_id: u8) -> Map<char, CellRole> {
    let m1 = map_after_insert(m, EMPTY_CHAR, CellRole::Empty);
    let m2 = map_after_insert(m1, own_char_of(own_id), CellRole::OwnSymbol);
    let m3 = map_after_insert(m2, opponent_char_of(own_id), CellRole::OpponentSymbol);
    let m4 = map_after_insert(m3, own_latest_char_of(own_id), CellRole::OwnLatestMove);
    map_after_insert(m4, opponent_latest_char_of(own_id), CellRole::OpponentLatestMove)
}

/// Fills `char_to_role` with the symbol table of the player with identity
/// `own_id` and returns the characters chosen for each side.
pub fn populate_char_to_role(char_to_role: &mut BiMap, own_id: u8) -> (r: Chars)
    requires
        old(char_to_role).wf(),
    ensures
        final(char_to_role).wf(),
        final(char_to_role)@ == table_after_populate(old(char_to_role)@, own_id),
        old(char_to_role)@ == Map::<char, CellRole>::empty() ==> forall|c: char|
            #[trigger] role_of_char(own_id, c) == (if final(char_to_role)@.contains_key(c) {
                Some(final(char_to_role)@[c])
            } else {
                None
            }),
        r.own_char == own_char_of(own_id),
        r.opponent_char == opponent_char_of(own_id),
        r.own_latest_char == own_latest_char_of(own_id),
        r.opponent_latest_char == opponent_latest_char_of(own_id),
{
    let pair = assign_chars(own_id);
    let own_char = pair[0];
    let opponent_char = pair[1];
    let latest = assign_latest_move_chars(own_id);
    let own_latest_char = latest[0];
    let opponent_latest_char = latest[1];

    char_to_role.insert(EMPTY_CHAR, CellRole::Empty);
    char_to_role.insert(own_char, CellRole::OwnSymbol);
    char_to_role.insert(opponent_char, CellRole::OpponentSymbol);
    char_to_role.insert(own_latest_char, CellRole::OwnLatestMove);
    char_to_role.insert(opponent_latest_char, CellRole::OpponentLatestMove);

    proof {
        if old(char_to_role)@ == Map::<char, CellRole>::empty() {
            assert forall|c: char| #[trigger] role_of_char(own_id, c) == (if char_to_role@.contains_key(c) {
                Some(char_to_role@[c])
            } else {
                None
            }) by {}
        }
    }
    Chars { own_char, own_latest_char, opponent_char, opponent_latest_char }
}

/// The symbol table of one player: which character stands for which role.
pub struct SymbolTable {
    own_char: char,
    opponent_char: char,
    own_latest_char: char,
    opponent_latest_char: char,
    char_to_role: BiMap,
    own_id: Ghost<u8>,
}

impl SymbolTable {
    /// The identity of the player that the table was made for.
    pub closed spec fn own_id(&self) -> u8 {
        self.own_id@
    }

    pub closed spec fn wf(&self) -> bool {
        &&& self.char_to_role.wf()
        &&& forall|c: char|
            #[trigger] role_of_char(self.own_id@, c) == (if self.char_to_role@.contains_key(c) {
                Some(self.char_to_role@[c])
            } else {
                None
            })
        &&& self.own_char == own_char_of(self.own_id@)
        &&& self.opponent_char == opponent_char_of(self.own_id@)
        &&& self.own_latest_char == own_latest_char_of(self.own_id@)
        &&& self.opponent_latest_char == opponent_latest_char_of(self.own_id@)
    }

    /// The table of the player with identity `own_id`.
    pub fn new(own_id: u8) -> (r: Self)
        ensures
            r.wf(),
            r.own_id() == own_id,
    {
        let mut char_to_role = BiMap::new();
        let Chars { own_char, opponent_char, own_latest_char, opponent_latest_char } =
            populate_char_to_role(&mut char_to_role, own_id);
        SymbolTable {
            own_char,
            opponent_char,
            own_latest_char,
            opponent_latest_char,
            char_to_role,
            own_id: Ghost(own_id),
        }
    }

    /// The role that character `c` stands for.
    pub fn role_of(&self, c: char) -> (r: Option<CellRole>)
        requires
            self.wf(),
        ensures
            r == role_of_char(self.own_id(), c),
    {
        match self.char_to_role.get_by_key(&c) {
            Some(role) => Some(*role),
            None => None,
        }
    }

    /// The character that stands for `role`.
    pub fn char_of(&self, role: CellRole) -> (r: char)
        requires
            self.wf(),
        ensures
            r == char_of_role(self.own_id(), role),
            role_of_char(self.own_id(), r) == Some(role),
    {
        match role {
            CellRole::Empty => EMPTY_CHAR,
            CellRole::OwnSymbol => self.own_char,
            CellRole::OpponentSymbol => self.opponent_char,
            CellRole::OwnLatestMove => self.own_latest_char,
            CellRole::OpponentLatestMove => self.opponent_latest_char,
        }
    }
}

fn assign_chars(own_id: u8) -> (r: [char; 2])
    ensures
        r@ == (if own_id == 1 { seq![P1_CHAR, P2_CHAR] } else { seq![P2_CHAR, P1_CHAR] }),
{
    if own_id == 1 {
        [P1_CHAR, P2_CHAR]
    } else {
        [P2_CHAR, P1_CHAR]
    }
}

fn assign_latest_move_chars(own_id: u8) -> (r: [char; 2])
    ensures
        r@ == (if own_id == 1 {
            seq![P1_LATEST_CHAR, P2_LATEST_CHAR]
        } else {
            seq![P2_LATEST_CHAR, P1_LATEST_CHAR]
        }),
{
    if own_id == 1 {
        [P1_LATEST_CHAR, P2_LATEST_CHAR]
    } else {
        [P2_LATEST_CHAR, P1_LATEST_CHAR]
    }
}

} // verus!
