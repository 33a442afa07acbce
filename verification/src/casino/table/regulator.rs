//! The table's regulator: one call moves the hand on by whatever step the
//! betting phase calls for.
use vstd::prelude::*;

use crate::casino::table::seat::Seat;
use crate::casino::table::seats::{betting_complete, holdings, street_reset};
use crate::casino::table::showdown::{committed, showdown_result};
use crate::casino::table::winnings::{HandRank, Winnings};
use crate::casino::table::{GamePhase, Table};
use crate::error::PKError;

verus! {

/// Ending a betting street on the flop (`turn`) or the turn: the bets go
/// into the pot, the next street's card is dealt, and every seat still in
/// the hand is yet to act again; each step stops the regulator when it is
/// refused.
pub open spec fn street_step(before: Table, turn: bool, after: Table, r: Result<(), PKError>) -> bool {
    exists|m1: Table, r1: Result<usize, PKError>, m2: Table, r2: Result<(), PKError>|
        #[trigger] street_body(before, turn, after, r, m1, r1, m2, r2)
}

/// The steps of `street_step` through the tables `m1`, after the bets went
/// in (answering `r1`), and `m2`, after the card was dealt (answering `r2`).
pub open spec fn street_body(
    before: Table,
    turn: bool,
    after: Table,
    r: Result<(), PKError>,
    m1: Table,
    r1: Result<usize, PKError>,
    m2: Table,
    r2: Result<(), PKError>,
) -> bool {
    &&& Table::bring_in_outcome(before, m1, r1)
    &&& r1 matches Err(e) ==> r == Err::<(), PKError>(e) && after == m1
    &&& r1 is Ok ==> Table::street_card_outcome(m1, turn, m2, r2)
    &&& r1 is Ok && r2 is Err ==> r == r2 && after == m2
    &&& r1 is Ok && r2 is Ok ==> r is Ok && after.seats@ == m2.seats@.map_values(|x: Seat| street_reset(x))
        && after == (Table { seats: after.seats, ..m2 })
}

/// Whether posting the forced bets of `before` leaves `after`, answering
/// `r`.
pub open spec fn forced_posted(before: Table, after: Table, r: Result<(), PKError>) -> bool {
    exists|m1: Table, m2: Table, m3: Table, r1: Result<(), PKError>, r2: Result<(), PKError>|
        #[trigger] Table::forced_bets_steps(before, m1, m2, m3, r1, r2, after, r)
}

/// The steps of the regulator before the flop through the tables `m1`
/// (after the forced bets, unless they were posted already), `m2` (after
/// the hole cards, unless every seat was dealt already) and `m3` (after
/// the bets went in, once the betting is complete), each answering its
/// `r`; the flop is dealt last, and the first refused step is answered.
pub open spec fn preflop_body(
    before: Table,
    after: Table,
    r: Result<(), PKError>,
    m1: Table,
    r1: Result<(), PKError>,
    m2: Table,
    r2: Result<(), PKError>,
    m3: Table,
    r3: Result<usize, PKError>,
) -> bool {
    &&& crate::casino::table::blinds_posted(before.event_log@) ==> m1 == before && r1 is Ok
    &&& !crate::casino::table::blinds_posted(before.event_log@) ==> forced_posted(before, m1, r1)
    &&& r1 is Err ==> r == r1 && after == m1
    &&& r1 is Ok && m1.seats_dealt_spec() ==> m2 == m1 && r2 is Ok
    &&& r1 is Ok && !m1.seats_dealt_spec() ==> Table::hole_cards_outcome(m1, m2, r2)
    &&& r1 is Ok && r2 is Err ==> r == r2 && after == m2
    &&& r1 is Ok && r2 is Ok && !betting_complete(m2.seats@) ==> r is Ok && after == m2
    &&& r1 is Ok && r2 is Ok && betting_complete(m2.seats@) ==> Table::bring_in_outcome(m2, m3, r3)
    &&& r1 is Ok && r2 is Ok && betting_complete(m2.seats@) && r3 is Err ==> (r3 matches Err(e) && r == Err::<(), PKError>(e))
        && after == m3
    &&& r1 is Ok && r2 is Ok && betting_complete(m2.seats@) && r3 is Ok ==> Table::flop_outcome(m3, after, r)
}

/// The regulator's step before the flop (see `preflop_body`).
pub open spec fn preflop_step(before: Table, after: Table, r: Result<(), PKError>) -> bool {
    exists|m1: Table, r1: Result<(), PKError>, m2: Table, r2: Result<(), PKError>, m3: Table, r3: Result<usize, PKError>|
        #[trigger] preflop_body(before, after, r, m1, r1, m2, r2, m3, r3)
}

/// Every occupied seat still in the hand has a full box of hole cards.
pub open spec fn all_dealt(s: Seq<Seat>) -> bool {
    forall|i: int|
        0 <= i < s.len() ==> (#[trigger] s[i]).vacant() || !s[i].player.state.is_in_hand()
            || s[i].cards.dealt@.len() >= s[i].cards.slots
}

impl Table {
    /// Moves the hand on by one step, by the betting phase the board shows:
    /// before the flop, the blinds are posted and the hole cards dealt when
    /// that has not been done, and once the betting is complete the bets go
    /// into the pot and the flop is dealt; on the flop and the turn, once
    /// the betting is complete, the bets go in, the next card is dealt and
    /// the seats in the hand act again; on the river, once the hand is over,
    /// it is ended with the hands ranked by `ranks`. The first refused step
    /// is answered.
    pub fn act(&mut self, ranks: &Vec<HandRank>) -> (r: Result<(), PKError>)
        requires
            old(self).wf(),
            old(self).seats@.len() > 0,
            ranks@.len() >= old(self).seats@.len(),
            holdings(old(self).seats@) + old(self).pot + committed(old(self).seats@) <= usize::MAX,
        ensures
            final(self).wf(),
            final(self).seats@.len() == old(self).seats@.len(),
            !(old(self).board@.len() == 0 || old(self).board@.len() == 3 || old(self).board@.len() == 4
                || old(self).board@.len() == 5) ==> r is Ok && *final(self) == *old(self),
            old(self).board@.len() == 0 ==> final(self).chips_on_table() == old(self).chips_on_table(),
            old(self).board@.len() == 0 ==> preflop_step(*old(self), *final(self), r),
            old(self).board@.len() == 0 && r is Ok && betting_complete(old(self).seats@)
                && crate::casino::table::blinds_posted(old(self).event_log@) && all_dealt(old(self).seats@)
                ==> final(self).board@.len() == 3,
            old(self).board@.len() == 0 && crate::casino::table::blinds_posted(old(self).event_log@)
                && all_dealt(old(self).seats@) && !betting_complete(old(self).seats@) ==> r is Ok && *final(self) == *old(self),
            (old(self).board@.len() == 3 || old(self).board@.len() == 4) && !betting_complete(
                old(self).seats@,
            ) ==> r is Ok && *final(self) == *old(self),
            (old(self).board@.len() == 3 || old(self).board@.len() == 4) && betting_complete(
                old(self).seats@,
            ) ==> street_step(*old(self), old(self).board@.len() == 3, *final(self), r),
            (old(self).board@.len() == 3 || old(self).board@.len() == 4) ==> final(self).chips_on_table()
                == old(self).chips_on_table(),
            old(self).board@.len() == 5 && !old(self).game_over() ==> r is Ok && *final(self) == *old(self),
            old(self).board@.len() == 5 && old(self).game_over() ==> exists|w: Result<Vec<Winnings>, PKError>|
                showdown_result(*old(self), ranks@, w, final(self).chips_on_table())
                    && crate::casino::table::showdown::showdown_paid(*old(self), ranks@, w, final(self).seats@)
                    && (w is Ok <==> r is Ok)
                    && (w matches Err(e) ==> r == Err::<(), PKError>(e)),
    {
        let phase = self.determine_betting_phase();
        match phase {
            GamePhase::BettingPreFlop => {
                let ghost before = *self;
                let r1: Result<(), PKError> = if !self.have_posted_blinds() {
                    self.act_forced_bets()
                } else {
                    Ok(())
                };
                let ghost m1 = *self;
                if r1.is_err() {
                    proof {
                        assert(preflop_body(before, *self, r1, m1, r1, m1, Ok(()), m1, Ok(0usize)));
                    }
                    return r1;
                }
                let r2: Result<(), PKError> = if !self.seats_are_dealt() {
                    self.deal_cards_to_seats()
                } else {
                    Ok(())
                };
                let ghost m2 = *self;
                if r2.is_err() {
                    proof {
                        assert(preflop_body(before, *self, r2, m1, r1, m2, r2, m2, Ok(0usize)));
                    }
                    return r2;
                }
                if self.is_betting_complete() {
                    let r3 = self.bring_it_in();
                    let ghost m3 = *self;
                    match r3 {
                        Ok(_) => {},
                        Err(e) => {
                            proof {
                                assert(preflop_body(before, *self, Err(e), m1, r1, m2, r2, m3, r3));
                            }
                            return Err(e);
                        },
                    }
                    let r = self.deal_flop();
                    proof {
                        assert(self.seats == m3.seats && self.pot == m3.pot);
                        assert(preflop_body(before, *self, r, m1, r1, m2, r2, m3, r3));
                    }
                    return r;
                }
                proof {
                    assert(preflop_body(before, *self, Ok(()), m1, r1, m2, r2, m2, Ok(0usize)));
                }
                Ok(())
            },
            GamePhase::BettingFlop | GamePhase::BettingTurn => {
                if !self.is_betting_complete() {
                    return Ok(());
                }
                let turn = self.board.len() == 3;
                let ghost before = *self;
                let r1 = self.bring_it_in();
                let ghost m1 = *self;
                match r1 {
                    Ok(_) => {},
                    Err(e) => {
                        proof {
                            assert(street_body(before, turn, *self, Err(e), m1, r1, m1, Ok(())));
                        }
                        return Err(e);
                    },
                }
                let r2 = if turn {
                    self.deal_turn()
                } else {
                    self.deal_river()
                };
                let ghost m2 = *self;
                match r2 {
                    Ok(_) => {},
                    Err(e) => {
                        proof {
                            assert(street_body(before, turn, *self, Err(e), m1, r1, m2, r2));
                        }
                        return Err(e);
                    },
                }
                self.seats.reset_state_in_hand();
                proof {
                    assert(self.seats@ =~= m2.seats@.map_values(|x: Seat| street_reset(x)));
                    assert(street_body(before, turn, *self, Ok(()), m1, r1, m2, r2));
                    crate::casino::table::dealing::lemma_holdings_same_stacks(m2.seats@, self.seats@);
                    assert forall|j: int| 0 <= j < self.seats@.len() implies (#[trigger] self.seats@[j]).player.wf() by {
                        assert(m2.seats@[j].player.wf());
                    }
                }
                Ok(())
            },
            GamePhase::BettingRiver => {
                if self.is_game_over() {
                    let w = self.end_hand(ranks);
                    return match w {
                        Ok(_) => Ok(()),
                        Err(e) => Err(e),
                    };
                }
                Ok(())
            },
            _ => Ok(()),
        }
    }
}

} // verus!
