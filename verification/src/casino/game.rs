//! The forced bets a hand is played for: blinds, antes and the bring-in.
use vstd::prelude::*;
use vstd::string::*;

use crate::text::{decimal, push_decimal};

verus! {

/// The game a table deals: no-limit hold'em.
#[derive(Clone, Copy, Debug, PartialEq, Eq, Structural, Hash)]
pub enum GameType {
    NoLimitHoldem,
}

/// Forced bets for a hand. Hold'em and Omaha use the blinds, with an
/// optional ante; stud-family games leave the blinds at zero and use the
/// ante and the bring-in.
#[derive(Clone, Copy, Debug, PartialEq, Eq, Hash, Default)]
pub struct ForcedBets {
    pub small_blind: usize,
    pub big_blind: usize,
    pub ante: usize,
    pub bring_in: usize,
}

/// The text of a set of forced bets: the blinds alone, the blinds and the
/// ante, or, once a bring-in is set, the ante and the bring-in.
pub open spec fn forced_bets_text(f: ForcedBets) -> Seq<char> {
    if f.ante == 0 && f.bring_in == 0 {
        "SB: "@ + decimal(f.small_blind as nat) + ", BB: "@ + decimal(f.big_blind as nat)
    } else if f.bring_in == 0 {
        "SB: "@ + decimal(f.small_blind as nat) + ", BB: "@ + decimal(f.big_blind as nat)
            + ", Ante: "@ + decimal(f.ante as nat)
    } else {
        "Ante: "@ + decimal(f.ante as nat) + ", Bring-in: "@ + decimal(f.bring_in as nat)
    }
}

impl ForcedBets {
    /// Blinds only; ante and bring-in are zero.
    pub fn new(small_blind: usize, big_blind: usize) -> (f: Self)
        ensures
            f == (ForcedBets { small_blind, big_blind, ante: 0, bring_in: 0 }),
    {
        ForcedBets { small_blind, big_blind, ante: 0, bring_in: 0 }
    }

    /// Blinds and an ante; no bring-in.
    pub fn new_with_ante(small_blind: usize, big_blind: usize, ante: usize) -> (f: Self)
        ensures
            f == (ForcedBets { small_blind, big_blind, ante, bring_in: 0 }),
    {
        ForcedBets { small_blind, big_blind, ante, bring_in: 0 }
    }

    /// Every forced bet given explicitly, as stud-family games need.
    pub fn new_with_ante_and_bring_in(
        small_blind: usize,
        big_blind: usize,
        ante: usize,
        bring_in: usize,
    ) -> (f: Self)
        ensures
            f == (ForcedBets { small_blind, big_blind, ante, bring_in }),
    {
        ForcedBets { small_blind, big_blind, ante, bring_in }
    }

    pub fn to_string(&self) -> (s: String)
        ensures
            s@ == forced_bets_text(*self),
    {
        let mut s = String::new();
        proof {
            reveal_strlit("SB: ");
            reveal_strlit(", BB: ");
            reveal_strlit(", Ante: ");
            reveal_strlit("Ante: ");
            reveal_strlit(", Bring-in: ");
        }
        if self.ante == 0 && self.bring_in == 0 {
            s.append("SB: ");
            push_decimal(&mut s, self.small_blind);
            s.append(", BB: ");
            push_decimal(&mut s, self.big_blind);
        } else if self.bring_in == 0 {
            s.append("SB: ");
            push_decimal(&mut s, self.small_blind);
            s.append(", BB: ");
            push_decimal(&mut s, self.big_blind);
            s.append(", Ante: ");
            push_decimal(&mut s, self.ante);
        } else {
            s.append("Ante: ");
            push_decimal(&mut s, self.ante);
            s.append(", Bring-in: ");
            push_decimal(&mut s, self.bring_in);
        }
        assert(s@ =~= forced_bets_text(*self));
        s
    }
}

} // verus!
