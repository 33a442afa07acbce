//! What a seat won at the end of a hand: the chips and the seat, and the
//! strength of the hand that won them.
use vstd::prelude::*;

use crate::casino::table::seats::seat_equity::{seat_equity_text, SeatEquity};
use crate::text::{decimal, push_decimal};

verus! {

/// The strength of a hand as the hand evaluator ranks it: the lower, the
/// better; the best hand ranks 1, and 0 stands for no evaluation.
#[derive(Clone, Copy, Debug, PartialEq, Eq, Structural, Hash, Default)]
pub struct HandRank(pub u16);

/// The text of a hand rank.
pub open spec fn hand_rank_text(r: HandRank) -> Seq<char> {
    "HandRank("@ + decimal(r.0 as nat) + ")"@
}

impl HandRank {
    /// Appends the text of the rank.
    pub fn push_text(&self, s: &mut String)
        ensures
            final(s)@ == old(s)@ + hand_rank_text(*self),
    {
        s.append("HandRank(");
        push_decimal(s, self.0 as usize);
        s.append(")");
        assert(final(s)@ =~= old(s)@ + hand_rank_text(*self));
    }
}

/// What a seat won: the chips and the seat, and the hand that won them.
#[derive(Clone, Copy, Debug, PartialEq, Eq, Structural, Hash, Default)]
pub struct Winnings {
    pub equity: SeatEquity,
    pub eval: HandRank,
}

/// The text of a win.
pub open spec fn winnings_text(w: Winnings) -> Seq<char> {
    "Winnings(equity="@ + seat_equity_text(w.equity) + ", eval="@ + hand_rank_text(w.eval) + ")"@
}

impl Winnings {
    /// The text of the win.
    pub fn to_string(&self) -> (s: String)
        ensures
            s@ == winnings_text(*self),
    {
        let mut s = String::new();
        s.append("Winnings(equity=");
        let e = self.equity.to_string();
        s.append(e.as_str());
        s.append(", eval=");
        self.eval.push_text(&mut s);
        s.append(")");
        proof {
            assert(s@ =~= winnings_text(*self));
        }
        s
    }
}

} // verus!
