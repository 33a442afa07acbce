//! The forced bets at the start of a hand: antes, the small blind and the
//! big blind.
use vstd::prelude::*;

use crate::casino::action::TableAction;
use crate::casino::table::actions::with_player;
use crate::casino::table::seat::Seat;
use crate::casino::table::seats::{holdings, lemma_holdings_update, occupied_holdings, players_wf};
use crate::casino::table::{big_blind_seat, small_blind_seat, GamePhase, Table};
use crate::error::PKError;

verus! {

/// The chips the first `n` seats post as an ante of `ante`.
pub open spec fn antes_total(s: Seq<Seat>, ante: usize, n: nat) -> nat
    decreases n,
{
    if n == 0 {
        0
    } else {
        antes_total(s, ante, (n - 1) as nat) + (s[n - 1].player.dead_posted(ante).1 as nat)
    }
}

/// The log entries of the first `n` seats posting an ante of `ante`: one
/// for each seat that posted something.
pub open spec fn ante_entries(s: Seq<Seat>, ante: usize, n: nat) -> Seq<TableAction>
    decreases n,
{
    if n == 0 {
        Seq::empty()
    } else {
        let prev = ante_entries(s, ante, (n - 1) as nat);
        let posted = s[n - 1].player.dead_posted(ante).1;
        if posted > 0 {
            prev.push(TableAction::BetAnteForced((n - 1) as u8, posted))
        } else {
            prev
        }
    }
}

/// A seat after posting an ante of `ante` as dead money.
pub open spec fn ante_posted(x: Seat, ante: usize) -> Seat {
    Seat { player: x.player.dead_posted(ante).0, ..x }
}

impl Table {
    /// What posting the antes does: nothing without an ante; otherwise
    /// every seat posts the ante as dead money (at most its stack, nothing
    /// when not active), what is posted goes straight to the pot, and each
    /// post is logged.
    pub open spec fn antes_outcome(before: Table, after: Table) -> bool {
        let ante = before.forced.ante;
        let n = before.seats@.len();
        if ante == 0 {
            Table::unchanged(before, after)
        } else {
            &&& after.seats@ == before.seats@.map_values(|x: Seat| ante_posted(x, ante))
            &&& after.pot == before.pot + antes_total(before.seats@, ante, n)
            &&& after.event_log@ == before.event_log@ + ante_entries(before.seats@, ante, n)
            &&& after == (Table {
                seats: after.seats,
                pot: after.pot,
                event_log: after.event_log,
                ..before
            })
        }
    }

    /// What a forced bet of `amount` at `seat` does: past the end of the
    /// ring it is refused with `InvalidSeatNumber`; otherwise the player
    /// posts the amount, or everything held when that is less, or is
    /// refused with nothing moved; on success the big blind sets the table
    /// bet to the big blind, and the post and the next turn are logged.
    pub open spec fn blind_outcome(
        before: Table,
        seat: nat,
        amount: usize,
        big: bool,
        after: Table,
        r: Result<(), PKError>,
    ) -> bool {
        if seat >= before.seats@.len() {
            r == Err::<(), PKError>(PKError::InvalidSeatNumber) && Table::unchanged(before, after)
        } else {
            match before.seats@[seat as int].player.blind_step(amount) {
                Err(e) => r == Err::<(), PKError>(e) && Table::unchanged(before, after),
                Ok((q, posted)) => {
                    &&& r == Ok::<(), PKError>(())
                    &&& after.seats@ == with_player(before.seats@, seat as int, q)
                    &&& after.bet == (if big {
                        before.forced.big_blind
                    } else {
                        before.bet
                    })
                    &&& after == (Table {
                        seats: after.seats,
                        bet: after.bet,
                        event_log: after.event_log,
                        ..before
                    })
                    &&& after.event_log@ == before.event_log@ + seq![
                        if big {
                            TableAction::ForcedBetBigBlind(seat as u8, posted)
                        } else {
                            TableAction::ForcedBetSmallBlind(seat as u8, posted)
                        },
                        TableAction::ActionTo(after.next_to_act_spec()),
                    ]
                },
            }
        }
    }

    /// Posts the ante for every seat; what is posted goes to the pot.
    pub fn act_antes(&mut self) -> (r: Result<(), PKError>)
        requires
            old(self).wf(),
        ensures
            final(self).wf(),
            final(self).chips_on_table() == old(self).chips_on_table(),
            r is Ok,
            Table::antes_outcome(*old(self), *final(self)),
    {
        let ante = self.forced.ante;
        if ante == 0 {
            return Ok(());
        }
        let ghost before = *self;
        let count = self.seats.0.len();
        let mut idx: usize = 0;
        while idx < count
            invariant
                count == before.seats@.len() == self.seats@.len() <= 256,
                idx <= count,
                ante == before.forced.ante > 0,
                players_wf(self.seats@),
                forall|j: int| 0 <= j < idx ==> #[trigger] self.seats@[j] == ante_posted(before.seats@[j], ante),
                forall|j: int| idx <= j < count ==> #[trigger] self.seats@[j] == before.seats@[j],
                self.pot == before.pot + antes_total(before.seats@, ante, idx as nat),
                holdings(self.seats@) + antes_total(before.seats@, ante, idx as nat) == holdings(before.seats@),
                before.chips_on_table() <= usize::MAX,
                self.event_log@ == before.event_log@ + ante_entries(before.seats@, ante, idx as nat),
                *self == (Table {
                    seats: self.seats,
                    pot: self.pot,
                    event_log: self.event_log,
                    ..before
                }),
            decreases count - idx,
        {
            let ghost mid = self.seats@;
            let actual = self.seats.post_dead_ante(idx as u8, ante);
            proof {
                assert(self.seats@[idx as int] == ante_posted(before.seats@[idx as int], ante));
                assert forall|j: int| 0 <= j < idx + 1 implies #[trigger] self.seats@[j] == ante_posted(
                    before.seats@[j],
                    ante,
                ) by {
                    if j < idx {
                        assert(self.seats@[j] == mid[j]);
                    }
                }
                assert forall|j: int| idx + 1 <= j < count implies #[trigger] self.seats@[j]
                    == before.seats@[j] by {
                    assert(self.seats@[j] == mid[j]);
                }
            }
            if actual > 0 {
                self.pot = self.pot + actual;
                self.log(TableAction::BetAnteForced(idx as u8, actual));
            }
            idx = idx + 1;
            proof {
                assert(self.event_log@ =~= before.event_log@ + ante_entries(before.seats@, ante, idx as nat));
            }
        }
        proof {
            assert(self.seats@ =~= before.seats@.map_values(|x: Seat| ante_posted(x, ante)));
        }
        Ok(())
    }

    /// Posts the small blind.
    pub fn act_forced_bet_small_blind(&mut self) -> (r: Result<(), PKError>)
        requires
            old(self).wf(),
            old(self).seats@.len() > 0,
        ensures
            final(self).wf(),
            final(self).chips_on_table() == old(self).chips_on_table(),
            Table::blind_outcome(
                *old(self),
                small_blind_seat(old(self).seats@, old(self).button as nat),
                old(self).forced.small_blind,
                false,
                *final(self),
                r,
            ),
    {
        let sb = self.determine_small_blind();
        let amount = self.forced.small_blind;
        self.forced_bet(sb, amount, false)
    }

    /// Posts the big blind; the table bet becomes the big blind.
    pub fn act_forced_bet_big_blind(&mut self) -> (r: Result<(), PKError>)
        requires
            old(self).wf(),
            old(self).seats@.len() > 0,
        ensures
            final(self).wf(),
            final(self).chips_on_table() == old(self).chips_on_table(),
            Table::blind_outcome(
                *old(self),
                big_blind_seat(old(self).seats@, old(self).button as nat),
                old(self).forced.big_blind,
                true,
                *final(self),
                r,
            ),
    {
        let bb = self.determine_big_blind();
        let amount = self.forced.big_blind;
        self.forced_bet(bb, amount, true)
    }

    /// The common body of the two blinds.
    fn forced_bet(&mut self, seat: u8, amount: usize, big: bool) -> (r: Result<(), PKError>)
        requires
            old(self).wf(),
            old(self).seats@.len() > 0,
        ensures
            final(self).wf(),
            final(self).chips_on_table() == old(self).chips_on_table(),
            Table::blind_outcome(*old(self), seat as nat, amount, big, *final(self), r),
    {
        let ghost before = *self;
        let posted = match self.seats.act_forced_bet(seat, amount) {
            Ok(a) => a,
            Err(e) => {
                return Err(e);
            },
        };
        proof {
            lemma_holdings_update(before.seats@, seat as int, self.seats@[seat as int]);
        }
        if big {
            self.bet = self.forced.big_blind;
        }
        let entry = if big {
            TableAction::ForcedBetBigBlind(seat, posted)
        } else {
            TableAction::ForcedBetSmallBlind(seat, posted)
        };
        self.log(entry);
        let next = self.next_to_act();
        self.log(TableAction::ActionTo(next));
        proof {
            assert(self.event_log@ =~= before.event_log@ + seq![entry, TableAction::ActionTo(self.next_to_act_spec())]);
        }
        Ok(())
    }

    /// Posts the forced bets of a hold'em hand: the antes when there is an
    /// ante, then the small and the big blind. The chips at the table are
    /// first noted as the hand's total, and on success the phase becomes
    /// `ForcedBets`. A refused blind stops there and answers the refusal.
    pub fn act_forced_bets(&mut self) -> (r: Result<(), PKError>)
        requires
            old(self).wf(),
            old(self).seats@.len() > 0,
        ensures
            final(self).wf(),
            final(self).chips_on_table() == old(self).chips_on_table(),
            final(self).hand_chip_total == occupied_holdings(old(self).seats@) + old(self).pot,
            exists|m1: Table, m2: Table, m3: Table, r1: Result<(), PKError>, r2: Result<(), PKError>|
                Table::forced_bets_steps(*old(self), m1, m2, m3, r1, r2, *final(self), r),
    {
        let ghost before = *self;
        self.hand_chip_total = self.table_chip_count();
        let _ = self.act_antes();
        let ghost m1 = *self;
        let r1 = self.act_forced_bet_small_blind();
        let ghost m2 = *self;
        if r1.is_err() {
            proof {
                assert(Table::forced_bets_steps(before, m1, m2, m2, r1, r1, *self, r1));
            }
            return r1;
        }
        let r2 = self.act_forced_bet_big_blind();
        let ghost m3 = *self;
        if r2.is_err() {
            proof {
                assert(Table::forced_bets_steps(before, m1, m2, m3, r1, r2, *self, r2));
            }
            return r2;
        }
        self.phase = GamePhase::ForcedBets;
        proof {
            assert(Table::forced_bets_steps(before, m1, m2, m3, r1, r2, *self, Ok(())));
        }
        Ok(())
    }

    /// The steps of `act_forced_bets` from `before` to `after` answering
    /// `r`: the total noted and the antes posted (`m1`), the small blind
    /// (`m2`, answering `r1`), then, unless that was refused, the big blind
    /// (`m3`, answering `r2`), and the phase set when both were posted.
    pub open spec fn forced_bets_steps(
        before: Table,
        m1: Table,
        m2: Table,
        m3: Table,
        r1: Result<(), PKError>,
        r2: Result<(), PKError>,
        after: Table,
        r: Result<(), PKError>,
    ) -> bool {
        &&& Table::antes_outcome(
            (Table {
                hand_chip_total: (occupied_holdings(before.seats@) + before.pot) as usize,
                ..before
            }),
            m1,
        )
        &&& Table::blind_outcome(
            m1,
            small_blind_seat(m1.seats@, m1.button as nat),
            m1.forced.small_blind,
            false,
            m2,
            r1,
        )
        &&& r1 is Err ==> r == r1 && after == m2
        &&& r1 is Ok ==> Table::blind_outcome(
            m2,
            big_blind_seat(m2.seats@, m2.button as nat),
            m2.forced.big_blind,
            true,
            m3,
            r2,
        )
        &&& r1 is Ok && r2 is Err ==> r == r2 && after == m3
        &&& r1 is Ok && r2 is Ok ==> r is Ok && after == (Table { phase: GamePhase::ForcedBets, ..m3 })
    }
}

} // verus!
