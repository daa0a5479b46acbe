use vstd::prelude::*;

verus! {

/// The rules a variant plays by.
pub struct Rules {
    pub board_size: usize,
    pub has_corners_win: bool,
    pub has_edge_win: bool,
    pub has_fort_win: bool,
    pub has_shield_walls: bool,
    pub initial_fen: String,
    pub is_king_strong: bool,
    pub is_corners_hostile: bool,
}

#[derive(Clone, Copy, Debug, PartialEq, Eq, Structural)]
pub enum RulesEnum {
    Copenhagen11x11,
    Historical11x11,
    Tablut9x9,
}

pub open spec fn spec_board_size(r: RulesEnum) -> usize {
    match r {
        RulesEnum::Copenhagen11x11 => 11,
        RulesEnum::Historical11x11 => 11,
        RulesEnum::Tablut9x9 => 9,
    }
}

/// A strong king falls only to four hostile sides; a weak one to a plain sandwich.
pub open spec fn spec_is_king_strong(r: RulesEnum) -> bool {
    r == RulesEnum::Copenhagen11x11
}

pub open spec fn spec_has_shield_walls(r: RulesEnum) -> bool {
    r == RulesEnum::Copenhagen11x11
}

/// Whether the empty corners close a sandwich (the empty throne always does).
pub open spec fn spec_is_corners_hostile(r: RulesEnum) -> bool {
    r != RulesEnum::Historical11x11
}

pub open spec fn spec_has_corners_win(r: RulesEnum) -> bool {
    r != RulesEnum::Historical11x11
}

pub open spec fn spec_has_edge_win(r: RulesEnum) -> bool {
    r == RulesEnum::Historical11x11
}

pub open spec fn spec_has_fort_win(r: RulesEnum) -> bool {
    r == RulesEnum::Copenhagen11x11
}

pub open spec fn spec_initial_fen(r: RulesEnum) -> Seq<char> {
    match r {
        RulesEnum::Copenhagen11x11 => COPENHAGEN_FEN@,
        RulesEnum::Historical11x11 => HISTORICAL_FEN@,
        RulesEnum::Tablut9x9 => TABLUT_FEN@,
    }
}

pub open spec fn spec_rules_match(rules: Rules, r: RulesEnum) -> bool {
    &&& rules.board_size == spec_board_size(r)
    &&& rules.has_corners_win == spec_has_corners_win(r)
    &&& rules.has_edge_win == spec_has_edge_win(r)
    &&& rules.has_fort_win == spec_has_fort_win(r)
    &&& rules.has_shield_walls == spec_has_shield_walls(r)
    &&& rules.is_king_strong == spec_is_king_strong(r)
    &&& rules.is_corners_hostile == spec_is_corners_hostile(r)
}

impl RulesEnum {
    pub fn rules(&self) -> (r: Rules)
        ensures
            spec_rules_match(r, *self),
            r.initial_fen@ == spec_initial_fen(*self),
    {
        match self {
            RulesEnum::Copenhagen11x11 => Rules::create_copenhagen_rules(),
            RulesEnum::Historical11x11 => Rules::create_historical_rules(),
            RulesEnum::Tablut9x9 => Rules::create_tablut_rules(),
        }
    }

    pub fn board_size(&self) -> (n: usize)
        ensures
            n == spec_board_size(*self),
    {
        match self {
            RulesEnum::Copenhagen11x11 => 11,
            RulesEnum::Historical11x11 => 11,
            RulesEnum::Tablut9x9 => 9,
        }
    }

    pub fn is_king_strong(&self) -> (b: bool)
        ensures
            b == spec_is_king_strong(*self),
    {
        match self {
            RulesEnum::Copenhagen11x11 => true,
            _ => false,
        }
    }

    pub fn has_shield_walls(&self) -> (b: bool)
        ensures
            b == spec_has_shield_walls(*self),
    {
        match self {
            RulesEnum::Copenhagen11x11 => true,
            _ => false,
        }
    }

    pub fn is_corners_hostile(&self) -> (b: bool)
        ensures
            b == spec_is_corners_hostile(*self),
    {
        match self {
            RulesEnum::Historical11x11 => false,
            _ => true,
        }
    }

    pub fn has_corners_win(&self) -> (b: bool)
        ensures
            b == spec_has_corners_win(*self),
    {
        match self {
            RulesEnum::Historical11x11 => false,
            _ => true,
        }
    }

    pub fn has_edge_win(&self) -> (b: bool)
        ensures
            b == spec_has_edge_win(*self),
    {
        match self {
            RulesEnum::Historical11x11 => true,
            _ => false,
        }
    }

    pub fn has_fort_win(&self) -> (b: bool)
        ensures
            b == spec_has_fort_win(*self),
    {
        match self {
            RulesEnum::Copenhagen11x11 => true,
            _ => false,
        }
    }

    /// The starting position of the variant, in FEN.
    pub fn initial_fen(&self) -> (s: &'static str)
        ensures
            s@ == spec_initial_fen(*self),
    {
        match self {
            RulesEnum::Copenhagen11x11 => COPENHAGEN_FEN,
            RulesEnum::Historical11x11 => HISTORICAL_FEN,
            RulesEnum::Tablut9x9 => TABLUT_FEN,
        }
    }
}

pub const COPENHAGEN_FEN: &'static str =
    "3aaaaa3/5a5/11/a4d4a/a3ddd3a/aa1ddkdd1aa/a3ddd3a/a4d4a/11/5a5/3aaaaa3 a";

pub const HISTORICAL_FEN: &'static str =
    "4aaa4/4aaa4/5d5/5d5/aa3d3aa/aadddkdddaa/aa3d3aa/5d5/5d5/4aaa4/4aaa4 a";

pub const TABLUT_FEN: &'static str = "3aaa3/4a4/4d4/a3d3a/aaddkddaa/a3d3a/4d4/4a4/3aaa3 a";

impl Rules {
    pub fn create_copenhagen_rules() -> (r: Rules)
        ensures
            spec_rules_match(r, RulesEnum::Copenhagen11x11),
            r.initial_fen@ == COPENHAGEN_FEN@,
    {
        Rules {
            board_size: 11,
            has_corners_win: true,
            has_edge_win: false,
            has_fort_win: true,
            has_shield_walls: true,
            initial_fen: String::from_str(COPENHAGEN_FEN),
            is_king_strong: true,
            is_corners_hostile: true,
        }
    }

    pub fn create_historical_rules() -> (r: Rules)
        ensures
            spec_rules_match(r, RulesEnum::Historical11x11),
            r.initial_fen@ == HISTORICAL_FEN@,
    {
        Rules {
            board_size: 11,
            has_corners_win: false,
            has_edge_win: true,
            has_fort_win: false,
            has_shield_walls: false,
            initial_fen: String::from_str(HISTORICAL_FEN),
            is_king_strong: false,
            is_corners_hostile: false,
        }
    }

    pub fn create_tablut_rules() -> (r: Rules)
        ensures
            spec_rules_match(r, RulesEnum::Tablut9x9),
            r.initial_fen@ == TABLUT_FEN@,
    {
        Rules {
            board_size: 9,
            has_corners_win: true,
            has_edge_win: false,
            has_fort_win: false,
            has_shield_walls: false,
            initial_fen: String::from_str(TABLUT_FEN),
            is_king_strong: false,
            is_corners_hostile: true,
        }
    }
}

} // verus!
