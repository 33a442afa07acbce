//! The end of a hand: the pot goes to the last player standing, or, at a
//! showdown, to the best hands, with side pots by what each seat committed.
//! The strength of each seat's hand comes from the hand evaluator as a
//! `HandRank` per seat.
use vstd::prelude::*;

use crate::card::{bard_of, Bard};
use crate::casino::action::TableAction;
use crate::casino::table::GamePhase;
use crate::casino::cashier::chips::{stack_total, Stack};
use crate::casino::table::seat::Seat;
use crate::casino::table::seats::seat_equity::SeatEquity;
use crate::casino::table::seats::seatbit::{has_seat, ones, Seatbit};
use crate::casino::table::seats::table_equity::find_seat;
use crate::casino::table::seats::{
    bets, count_where, freezes, holdings, is_active_seat, lemma_bets_le_holdings,
    lemma_holdings_brought_in, lemma_holdings_update, brought_in, closed_out,
};
use crate::casino::table::winnings::{HandRank, Winnings};
use crate::casino::table::Table;
use crate::error::PKError;

verus! {

/// The best (lowest) rank among the seats of `s` in the hand, below `n`;
/// `None` when none of them is in the hand.
pub open spec fn best_rank(s: Seq<Seat>, ranks: Seq<HandRank>, n: nat) -> Option<u16>
    decreases n,
{
    if n == 0 {
        None
    } else {
        let prev = best_rank(s, ranks, (n - 1) as nat);
        if s[n - 1].in_hand() {
            match prev {
                Some(b) => if ranks[n - 1].0 < b {
                    Some(ranks[n - 1].0)
                } else {
                    Some(b)
                },
                None => Some(ranks[n - 1].0),
            }
        } else {
            prev
        }
    }
}

/// Whether seat `i` holds one of the best hands: in the hand, and ranked
/// the best among the seats in the hand.
pub open spec fn is_winner(s: Seq<Seat>, ranks: Seq<HandRank>, i: int) -> bool {
    &&& 0 <= i < s.len()
    &&& s[i].in_hand()
    &&& best_rank(s, ranks, s.len()) == Some(ranks[i].0)
}

/// The best rank is one of the ranks of the seats in the hand, and no
/// seat in the hand ranks better.
pub proof fn lemma_best_rank(s: Seq<Seat>, ranks: Seq<HandRank>, n: nat)
    requires
        n <= s.len(),
        n <= ranks.len(),
    ensures
        best_rank(s, ranks, n) is None <==> forall|i: int| 0 <= i < n ==> !(#[trigger] s[i]).in_hand(),
        best_rank(s, ranks, n) matches Some(b) ==> (exists|i: int|
            0 <= i < n && (#[trigger] s[i]).in_hand() && ranks[i].0 == b) && (forall|i: int|
            0 <= i < n && (#[trigger] s[i]).in_hand() ==> b <= ranks[i].0),
    decreases n,
{
    if n > 0 {
        lemma_best_rank(s, ranks, (n - 1) as nat);
    }
}

impl Table {
    /// The seats holding the best hands, in seat order.
    fn winning_seats(&self, ranks: &Vec<HandRank>) -> (v: Vec<u8>)
        requires
            self.seats@.len() <= 256,
            ranks@.len() >= self.seats@.len(),
        ensures
            forall|k: int| 0 <= k < v@.len() ==> is_winner(self.seats@, ranks@, #[trigger] v@[k] as int),
            forall|i: int| is_winner(self.seats@, ranks@, i) ==> v@.contains(i as u8),
            forall|a: int, b: int| 0 <= a < b < v@.len() ==> v@[a] < v@[b],
    {
        let n = self.seats.0.len();
        let mut best: Option<u16> = None;
        let mut i: usize = 0;
        while i < n
            invariant
                i <= n == self.seats@.len() <= 256,
                ranks@.len() >= n,
                best == best_rank(self.seats@, ranks@, i as nat),
            decreases n - i,
        {
            if self.seats.0[i].is_in_hand() {
                let r = ranks[i].0;
                best = match best {
                    Some(b) => if r < b {
                        Some(r)
                    } else {
                        Some(b)
                    },
                    None => Some(r),
                };
            }
            i = i + 1;
        }
        let mut v: Vec<u8> = Vec::new();
        let mut j: usize = 0;
        while j < n
            invariant
                j <= n == self.seats@.len() <= 256,
                ranks@.len() >= n,
                best == best_rank(self.seats@, ranks@, n as nat),
                forall|k: int| 0 <= k < v@.len() ==> is_winner(self.seats@, ranks@, #[trigger] v@[k] as int) && v@[k] < j,
                forall|i: int| 0 <= i < j && is_winner(self.seats@, ranks@, i) ==> v@.contains(i as u8),
                forall|a: int, b: int| 0 <= a < b < v@.len() ==> v@[a] < v@[b],
            decreases n - j,
        {
            if self.seats.0[j].is_in_hand() && best == Some(ranks[j].0) {
                let ghost before = v@;
                v.push(j as u8);
                proof {
                    assert(v@[before.len() as int] == j as u8);
                    assert forall|i: int| 0 <= i < j + 1 && is_winner(self.seats@, ranks@, i) implies v@.contains(i as u8) by {
                        if i < j {
                            let k = choose|k: int| 0 <= k < before.len() && before[k] == i as u8;
                            assert(v@[k] == i as u8);
                        }
                    }
                }
            }
            j = j + 1;
        }
        v
    }

    /// Pays the whole pot to the only seat left in the hand, `seat`: the
    /// street bets are gathered into the pot first, and the pot is emptied
    /// into the seat's stack.
    fn process_single_seat_in_hand(&mut self, seat: u8, ranks: &Vec<HandRank>) -> (r: Result<Vec<Winnings>, PKError>)
        requires
            old(self).wf(),
            seat < old(self).seats@.len(),
            is_active_seat(old(self).seats@[seat as int]),
            ranks@.len() >= old(self).seats@.len(),
            count_where(old(self).seats@, |x: Seat| is_active_seat(x)) <= 1,
        ensures
            final(self).forced == old(self).forced && final(self).id == old(self).id,
            r matches Ok(w) && w@ == seq![
                Winnings {
                    equity: SeatEquity {
                        chips: (old(self).pot + bets(old(self).seats@)) as usize,
                        seats: Seatbit::from_spec(seat),
                    },
                    eval: ranks@[seat as int],
                },
            ],
            final(self).pot == 0 && final(self).bet == 0,
            final(self).seats@.len() == old(self).seats@.len(),
            holdings(final(self).seats@) == holdings(old(self).seats@) + old(self).pot,
            forall|j: int|
                0 <= j < final(self).seats@.len() ==> (#[trigger] final(self).seats@[j]).player.bet == 0,
            forall|j: int|
                0 <= j < final(self).seats@.len() && j != seat ==> (#[trigger] final(self).seats@[j])
                    == brought_in(old(self).seats@[j], freezes(old(self).seats@)),
            final(self).seats@[seat as int] == (Seat {
                player: crate::casino::table::player::Player {
                    chips: (old(self).seats@[seat as int].player.chips + old(self).pot + bets(
                        old(self).seats@,
                    )) as usize,
                    ..brought_in(old(self).seats@[seat as int], freezes(old(self).seats@)).player
                },
                ..brought_in(old(self).seats@[seat as int], freezes(old(self).seats@))
            }),
            *final(self) == (Table { seats: final(self).seats, pot: 0, bet: 0, ..*old(self) }),
    {
        let ghost before = *self;
        proof {
            lemma_bets_le_holdings(before.seats@);
        }
        let collected = match self.seats.bring_it_in() {
            Ok(n) => n,
            Err(e) => {
                return Err(e);
            },
        };
        proof {
            lemma_holdings_brought_in(before.seats@, freezes(before.seats@));
        }
        self.pot = self.pot + collected;
        self.bet = 0;
        let pot = self.pot;
        self.pot = 0;
        let ghost mid = self.seats@;
        let idx = seat as usize;
        proof {
            assert(holdings(mid) + pot == holdings(before.seats@) + before.pot);
            let x = Seat {
                player: crate::casino::table::player::Player {
                    chips: (mid[idx as int].player.chips + pot) as usize,
                    ..mid[idx as int].player
                },
                ..mid[idx as int]
            };
            crate::casino::table::seats::lemma_seat_holdings_le(mid, idx as int);
            assert(mid[idx as int].player.bet == 0);
            lemma_holdings_update(mid, idx as int, Seat {
                player: crate::casino::table::player::Player {
                    chips: (mid[idx as int].player.chips + pot) as usize,
                    ..mid[idx as int].player
                },
                ..mid[idx as int]
            });
        }
        self.seats.0[idx].player.chips = self.seats.0[idx].player.chips + pot;
        proof {
            assert(self.seats@ =~= mid.update(idx as int, self.seats@[idx as int]));
        }
        let eval = ranks[idx];
        let mut w: Vec<Winnings> = Vec::new();
        w.push(Winnings { equity: SeatEquity::new(pot, Seatbit::from_seat(seat)), eval });
        proof {
            assert(w@ =~= seq![
                Winnings {
                    equity: SeatEquity { chips: pot, seats: Seatbit::from_spec(seat) },
                    eval: ranks@[seat as int],
                },
            ]);
        }
        Ok(w)
    }
}

/// The share of `total` split `n` ways that the `k`-th takes: as even as
/// whole chips allow, the first `total % n` shares a chip larger.
pub open spec fn share_of(total: nat, n: nat, k: int) -> nat {
    total / n + if k < total % n {
        1nat
    } else {
        0nat
    }
}

/// A prefix of a run of stacks holds no more than the whole run.
pub proof fn lemma_stack_total_prefix(s: Seq<Stack>, i: int)
    requires
        0 <= i <= s.len(),
    ensures
        stack_total(s.subrange(0, i)) <= stack_total(s),
    decreases s.len() - i,
{
    if i < s.len() {
        lemma_stack_total_prefix(s, i + 1);
        assert(s.subrange(0, i + 1).drop_last() =~= s.subrange(0, i));
    } else {
        assert(s.subrange(0, i) =~= s);
    }
}

/// Every win went to a seat holding one of the best hands, and carries
/// that seat and its hand.
pub open spec fn won_by_best(s: Seq<Seat>, ranks: Seq<HandRank>, w: Seq<Winnings>) -> bool {
    forall|k: int|
        0 <= k < w.len() ==> exists|i: int|
            is_winner(s, ranks, i) && (#[trigger] w[k]).eval == ranks[i] && w[k].equity.seats
                == Seatbit::from_spec(i as u8)
}

/// Whether `v` lists the seats with the best hand, each once, in seat
/// order.
pub open spec fn winners_in_order(s: Seq<Seat>, ranks: Seq<HandRank>, v: Seq<u8>) -> bool {
    &&& forall|a: int, b: int| 0 <= a < b < v.len() ==> #[trigger] v[a] < #[trigger] v[b]
    &&& forall|k: int| 0 <= k < v.len() ==> is_winner(s, ranks, #[trigger] v[k] as int)
    &&& forall|i: int| is_winner(s, ranks, i) ==> v.contains(i as u8)
}

/// Whether the winnings `w` pay the pot of `before` (its pot and every
/// bet) to the best hands: `v` lists the winning seats in seat order, the
/// `k`th gets the `k`th share and its hand's rank, its stack grows by that
/// share in `after`, and every other stack stays as it was.
pub open spec fn paid_to_best(before: Table, ranks: Seq<HandRank>, w: Seq<Winnings>, after: Seq<Seat>) -> bool {
    let pot = (before.pot + bets(before.seats@)) as nat;
    exists|v: Seq<u8>|
        {
            &&& #[trigger] winners_in_order(before.seats@, ranks, v)
            &&& v.len() == w.len() && v.len() > 0
            &&& forall|k: int|
                0 <= k < v.len() ==> (#[trigger] w[k]) == (Winnings {
                    equity: SeatEquity { chips: share_of(pot, v.len(), k) as usize, seats: Seatbit::from_spec(v[k]) },
                    eval: ranks[v[k] as int],
                })
            &&& after.len() == before.seats@.len()
            &&& forall|k: int|
                0 <= k < v.len() ==> (#[trigger] after[v[k] as int]).player.chips == before.seats@[v[k] as int].player.chips
                    + share_of(pot, v.len(), k)
            &&& forall|j: int|
                0 <= j < after.len() && !v.contains(j as u8) ==> (#[trigger] after[j]).player.chips
                    == before.seats@[j].player.chips
        }
}

impl Table {
    /// A showdown between the seats still in the hand: the bets are closed
    /// out into the pot, the active seats are at showdown, and the pot is
    /// split between the best hands in seat order, as evenly as whole chips
    /// allow; each win and each loss is logged and the chips the players
    /// committed are cleared.
    fn process_headsup(&mut self, ranks: &Vec<HandRank>) -> (r: Result<Vec<Winnings>, PKError>)
        requires
            old(self).wf(),
            ranks@.len() >= old(self).seats@.len(),
            exists|i: int| 0 <= i < old(self).seats@.len() && (#[trigger] old(self).seats@[i]).in_hand(),
        ensures
            final(self).forced == old(self).forced && final(self).id == old(self).id,
            final(self).seats@.len() == old(self).seats@.len(),
            extends(old(self).event_log@, final(self).event_log@),
            r is Ok ==> final(self).pot == 0 && holdings(final(self).seats@) == holdings(old(self).seats@)
                + old(self).pot,
            r is Err ==> final(self).wf(),
            r is Ok ==> all_settled(old(self).seats@, final(self).seats@),
            r is Ok ==> same_cards_off_seats(*old(self), *final(self)),
            r matches Ok(w) ==> w@.len() > 0 && won_by_best(old(self).seats@, ranks@, w@),
            r matches Ok(w) ==> paid_to_best(*old(self), ranks@, w@, final(self).seats@),
            r is Ok <==> crate::casino::table::seats::betting_complete(old(self).seats@) && !bet_off_hand(old(self).seats@),
            !crate::casino::table::seats::betting_complete(old(self).seats@) ==> r == Err::<Vec<Winnings>, PKError>(
                PKError::ActionIsntFinished,
            ),
            crate::casino::table::seats::betting_complete(old(self).seats@) && bet_off_hand(old(self).seats@) ==> r
                == Err::<Vec<Winnings>, PKError>(PKError::InvalidTableAction),
    {
        let winners = self.winning_seats(ranks);
        proof {
            lemma_best_rank(self.seats@, ranks@, self.seats@.len());
            let b = best_rank(self.seats@, ranks@, self.seats@.len());
            let i = choose|i: int| 0 <= i < self.seats@.len() && (#[trigger] self.seats@[i]).in_hand() && ranks@[i].0 == b->0;
            assert(is_winner(self.seats@, ranks@, i));
            assert(winners@.contains(i as u8));
        }
        let ghost before = *self;
        let pot = match self.close_it_out() {
            Ok(p) => p,
            Err(e) => {
                proof {
                    lemma_extends_append(before.event_log@, seq![]);
                }
                return Err(e);
            },
        };
        proof {
            lemma_extends_append(
                before.event_log@,
                seq![
                    TableAction::BringItIn(bets(before.seats@) as usize),
                    TableAction::PotSize(self.pot),
                    TableAction::CloseItOut(self.pot),
                ],
            );
        }
        let ghost closed = self.seats@;
        proof {
            crate::casino::table::seats::lemma_holdings_closed_out(before.seats@);
        }
        self.seats.showdown(pot);
        proof {
            crate::casino::table::dealing::lemma_holdings_same_stacks(closed, self.seats@);
            assert forall|j: int| 0 <= j < self.seats@.len() implies settled(before.seats@[j], #[trigger] self.seats@[j]) by {
                assert(closed[j] == closed_out(before.seats@[j]));
            }
        }
        self.pot = 0;
        let n = winners.len();
        let shares = Stack(pot).divvy_up(n);
        let ghost h0 = holdings(self.seats@);
        let mut results: Vec<Winnings> = Vec::new();
        let mut k: usize = 0;
        while k < n
            invariant
                self.forced == old(self).forced && self.id == old(self).id,
                n == winners@.len() == shares@.len(),
                n > 0,
                k <= n,
                before == *old(self),
                ranks@.len() >= self.seats@.len(),
                self.pot == 0,
                h0 + pot == holdings(before.seats@) + before.pot,
                stack_total(shares@) == pot,
                h0 + pot <= usize::MAX,
                holdings(self.seats@) == h0 + stack_total(shares@.subrange(0, k as int)),
                self.seats@.len() == before.seats@.len() <= 256,
                forall|j: int| 0 <= j < n ==> (#[trigger] winners@[j]) < self.seats@.len(),
                forall|j: int| 0 <= j < self.seats@.len() ==> (#[trigger] self.seats@[j]).player.bet == 0,
                extends(before.event_log@, self.event_log@),
                results@.len() == k,
                forall|j: int| 0 <= j < n ==> is_winner(before.seats@, ranks@, #[trigger] winners@[j] as int),
                forall|j: int|
                    0 <= j < k ==> (#[trigger] results@[j]).eval == ranks@[winners@[j] as int]
                        && results@[j].equity.seats == Seatbit::from_spec(winners@[j]),
                all_settled(before.seats@, self.seats@),
                same_cards_off_seats(before, *self),
                pot == before.pot + bets(before.seats@),
                forall|a: int, b: int| 0 <= a < b < n ==> #[trigger] winners@[a] < #[trigger] winners@[b],
                forall|j: int| 0 <= j < n ==> (#[trigger] shares@[j]).0 == share_of(pot as nat, n as nat, j),
                forall|j: int|
                    0 <= j < k ==> (#[trigger] results@[j]) == (Winnings {
                        equity: SeatEquity { chips: shares@[j].0, seats: Seatbit::from_spec(winners@[j]) },
                        eval: ranks@[winners@[j] as int],
                    }),
                forall|j: int|
                    0 <= j < k ==> (#[trigger] self.seats@[winners@[j] as int]).player.chips
                        == before.seats@[winners@[j] as int].player.chips + shares@[j].0,
                forall|i: int|
                    0 <= i < self.seats@.len() && !winners@.subrange(0, k as int).contains(i as u8)
                        ==> (#[trigger] self.seats@[i]).player.chips == before.seats@[i].player.chips,
            decreases n - k,
        {
            proof {
                lemma_stack_total_prefix(shares@, k + 1);
                assert(shares@.subrange(0, k + 1).drop_last() =~= shares@.subrange(0, k as int));
            }
            let seat = winners[k];
            let idx = seat as usize;
            let share = shares[k].0;
            let ghost mid = self.seats@;
            proof {
                crate::casino::table::seats::lemma_seat_holdings_le(mid, idx as int);
            }
            self.seats.0[idx].player.chips = self.seats.0[idx].player.chips + share;
            let hand = Bard::from_cards(&self.seats.0[idx].cards.dealt);
            let id = self.seats.0[idx].player.id;
            let committed = self.seats.0[idx].player.chips_in_play;
            let chips_won = share.saturating_sub(committed);
            self.seats.0[idx].player.chips_in_play = 0;
            proof {
                assert(self.seats@ =~= mid.update(idx as int, self.seats@[idx as int]));
                lemma_holdings_update(mid, idx as int, self.seats@[idx as int]);
                assert(is_winner(before.seats@, ranks@, winners@[k as int] as int));
                assert forall|i: int|
                    0 <= i < self.seats@.len() && !winners@.subrange(0, k + 1).contains(i as u8) implies (
                    #[trigger] self.seats@[i]).player.chips == before.seats@[i].player.chips by {
                    assert(winners@.subrange(0, k + 1)[k as int] == seat);
                    assert(i != idx);
                    assert(self.seats@[i] == mid[i]);
                    if winners@.subrange(0, k as int).contains(i as u8) {
                        let m = choose|m: int| 0 <= m < k && winners@.subrange(0, k as int)[m] == i as u8;
                        assert(winners@.subrange(0, k + 1)[m] == i as u8);
                    }
                }
                assert forall|j: int| 0 <= j < self.seats@.len() implies settled(before.seats@[j], #[trigger] self.seats@[j]) by {
                    assert(settled(before.seats@[j], mid[j]));
                }
            }
            let ghost prior = self.event_log@;
            self.log(TableAction::PlayerWins(seat, id, hand, chips_won, share));
            proof {
                lemma_extends_push(before.event_log@, prior, TableAction::PlayerWins(seat, id, hand, chips_won, share));
            }
            results.push(Winnings { equity: SeatEquity::new(share, Seatbit::from_seat(seat)), eval: ranks[idx] });
            k = k + 1;
        }
        proof {
            assert(shares@.subrange(0, n as int) =~= shares@);
        }
        let ghost paid_chips = self.seats@;
        let size = self.seats.0.len();
        let mut i: usize = 0;
        while i < size
            invariant
                self.forced == old(self).forced && self.id == old(self).id,
                i <= size == self.seats@.len() == before.seats@.len() <= 256,
                before == *old(self),
                self.pot == 0,
                h0 + pot == holdings(before.seats@) + before.pot,
                holdings(self.seats@) == h0 + pot,
                extends(before.event_log@, self.event_log@),
                results@.len() == n,
                n > 0,
                forall|j: int| 0 <= j < n ==> is_winner(before.seats@, ranks@, #[trigger] winners@[j] as int),
                forall|j: int|
                    0 <= j < n ==> (#[trigger] results@[j]).eval == ranks@[winners@[j] as int]
                        && results@[j].equity.seats == Seatbit::from_spec(winners@[j]),
                all_settled(before.seats@, self.seats@),
                same_cards_off_seats(before, *self),
                forall|j: int| 0 <= j < size ==> (#[trigger] self.seats@[j]).player.chips == paid_chips[j].player.chips,
                paid_chips.len() == size,
            decreases size - i,
        {
            if self.seats.0[i].is_in_hand() && !contains_seat(&winners, i as u8) {
                let loss = self.seats.0[i].player.chips_in_play;
                let ghost mid = self.seats@;
                self.seats.0[i].player.chips_in_play = 0;
                proof {
                    assert(self.seats@ =~= mid.update(i as int, self.seats@[i as int]));
                    lemma_holdings_update(mid, i as int, self.seats@[i as int]);
                    assert forall|j: int| 0 <= j < self.seats@.len() implies settled(before.seats@[j], #[trigger] self.seats@[j]) by {
                        assert(settled(before.seats@[j], mid[j]));
                    }
                }
                let hand = Bard::from_cards(&self.seats.0[i].cards.dealt);
                let id = self.seats.0[i].player.id;
                let ghost prior = self.event_log@;
                self.log(TableAction::PlayerLoses(i as u8, id, hand, loss));
                proof {
                    lemma_extends_push(before.event_log@, prior, TableAction::PlayerLoses(i as u8, id, hand, loss));
                }
            }
            i = i + 1;
        }
        proof {
            assert forall|k: int| 0 <= k < results@.len() implies exists|i: int|
                is_winner(before.seats@, ranks@, i) && (#[trigger] results@[k]).eval == ranks@[i]
                    && results@[k].equity.seats == Seatbit::from_spec(i as u8) by {
                let i = winners@[k] as int;
                assert(is_winner(before.seats@, ranks@, i));
            }
            assert(winners@.subrange(0, n as int) =~= winners@);
            assert(winners_in_order(before.seats@, ranks@, winners@));
            assert forall|k: int| 0 <= k < winners@.len() implies (#[trigger] results@[k]) == (Winnings {
                equity: SeatEquity {
                    chips: share_of((before.pot + bets(before.seats@)) as nat, winners@.len(), k) as usize,
                    seats: Seatbit::from_spec(winners@[k]),
                },
                eval: ranks@[winners@[k] as int],
            }) by {}
            assert(paid_to_best(before, ranks@, results@, self.seats@));
        }
        Ok(results)
    }
}

/// Whether `seat` is among `seats`.
fn contains_seat(seats: &Vec<u8>, seat: u8) -> (b: bool)
    ensures
        b == seats@.contains(seat),
{
    let mut i: usize = 0;
    while i < seats.len()
        invariant
            i <= seats@.len(),
            forall|k: int| 0 <= k < i ==> seats@[k] != seat,
        decreases seats@.len() - i,
    {
        if seats[i] == seat {
            proof {
                assert(seats@[i as int] == seat);
            }
            return true;
        }
        i = i + 1;
    }
    false
}

/// All the chips the players have committed to the hand.
pub open spec fn committed(s: Seq<Seat>) -> nat
    decreases s.len(),
{
    if s.len() == 0 {
        0
    } else {
        committed(s.drop_last()) + (s.last().player.chips_in_play as nat)
    }
}

/// What the first `n` seats committed, as equities: the chips of a seat
/// still in the hand under its seat, those of any other seat as dead
/// money; seats that committed nothing are left out.
pub open spec fn commitment_entries(s: Seq<Seat>, n: nat) -> Seq<SeatEquity>
    decreases n,
{
    if n == 0 {
        Seq::empty()
    } else {
        let prev = commitment_entries(s, (n - 1) as nat);
        let x = s[n - 1];
        if x.player.chips_in_play > 0 {
            prev.push(
                SeatEquity {
                    chips: x.player.chips_in_play,
                    seats: if x.in_hand() {
                        Seatbit::from_spec((n - 1) as u8)
                    } else {
                        Seatbit(0)
                    },
                },
            )
        } else {
            prev
        }
    }
}

/// A single seat's mask counts one seat.
pub proof fn lemma_one_seat(i: u16)
    requires
        i < 16,
    ensures
        ones((1u16 << i) as nat) == 1,
    decreases i,
{
    let b = 1u16 << i;
    if i == 0 {
        assert(1u16 << 0u16 == 1u16) by (bit_vector);
        assert(ones(0nat) == 0);
        assert(ones(1nat) == 1nat % 2 + ones(0nat));
    } else {
        assert(b / 2 == 1u16 << ((i - 1) as u16) && b % 2 == 0 && b != 0) by (bit_vector)
            requires
                b == 1u16 << i,
                0 < i < 16,
        ;
        lemma_one_seat((i - 1) as u16);
        assert(ones(b as nat) == (b as nat) % 2 + ones((b / 2) as nat));
    }
}

/// What the seats committed weighs no more than the chips committed.
pub proof fn lemma_commitment_weight(s: Seq<Seat>, n: nat)
    requires
        n <= s.len(),
    ensures
        crate::casino::equity::table_equity::weight(commitment_entries(s, n)) == committed(
            s.subrange(0, n as int),
        ),
    decreases n,
{
    if n > 0 {
        lemma_commitment_weight(s, (n - 1) as nat);
        assert(s.subrange(0, n as int).drop_last() =~= s.subrange(0, n - 1));
        let x = s[n - 1];
        let prev = commitment_entries(s, (n - 1) as nat);
        if x.player.chips_in_play > 0 {
            let e = commitment_entries(s, n).last();
            assert(commitment_entries(s, n).drop_last() =~= prev);
            if x.in_hand() && ((n - 1) as u8) < 16 {
                lemma_one_seat(((n - 1) as u8) as u16);
                assert(e.seats.0 == 1u16 << (((n - 1) as u8) as u16));
            }
            assert(crate::casino::equity::table_equity::contributors(e) == 1);
            assert(crate::casino::equity::table_equity::weight(commitment_entries(s, n))
                == crate::casino::equity::table_equity::weight(prev) + (e.chips as nat)
                * crate::casino::equity::table_equity::contributors(e));
            assert(e.chips == x.player.chips_in_play);
        } else {
            assert(commitment_entries(s, n) == prev);
        }
        assert(s.subrange(0, n as int).last() == x);
        assert(committed(s.subrange(0, n as int)) == committed(s.subrange(0, n - 1)) + (
        x.player.chips_in_play as nat));
    }
}

/// The entries of what the seats committed come from the seats in order,
/// each entry's mask holding at most its own seat.
proof fn lemma_commitment_from_seats(s: Seq<Seat>, n: nat)
    requires
        n <= s.len() <= 256,
    ensures
        forall|k: int, t: nat|
            0 <= k < commitment_entries(s, n).len() && #[trigger] has_seat(commitment_entries(s, n)[k].seats.0, t)
                ==> t == commitment_entry_of(s, n, k) && t < n,
        forall|a: int, b: int|
            0 <= a < b < commitment_entries(s, n).len() ==> commitment_entry_of(s, n, a) < commitment_entry_of(s, n, b),
        forall|k: int| 0 <= k < commitment_entries(s, n).len() ==> commitment_entry_of(s, n, k) < n,
    decreases n,
{
    if n > 0 {
        lemma_commitment_from_seats(s, (n - 1) as nat);
        let prev = commitment_entries(s, (n - 1) as nat);
        let cur = commitment_entries(s, n);
        let x = s[n - 1];
        if x.player.chips_in_play > 0 {
            assert(cur == prev.push(cur.last()));
            assert forall|k: int, t: nat|
                0 <= k < cur.len() && #[trigger] has_seat(cur[k].seats.0, t) implies t == commitment_entry_of(s, n, k)
                && t < n by {
                if k < prev.len() {
                    assert(cur[k] == prev[k]);
                    assert(commitment_entry_of(s, n, k) == commitment_entry_of(s, (n - 1) as nat, k));
                } else {
                    let m = (n - 1) as u8;
                    if x.in_hand() {
                        crate::casino::table::seats::seatbit::lemma_from_spec_has(m);
                    } else {
                        crate::casino::table::seats::seatbit::lemma_none_has();
                    }
                    assert(t == n - 1);
                }
            }
            assert forall|k: int| 0 <= k < cur.len() implies commitment_entry_of(s, n, k) < n by {
                if k < prev.len() {
                    assert(commitment_entry_of(s, n, k) == commitment_entry_of(s, (n - 1) as nat, k));
                }
            }
            assert forall|a: int, b: int| 0 <= a < b < cur.len() implies commitment_entry_of(s, n, a)
                < commitment_entry_of(s, n, b) by {
                assert(commitment_entry_of(s, n, a) == commitment_entry_of(s, (n - 1) as nat, a));
                if b < prev.len() {
                    assert(commitment_entry_of(s, n, b) == commitment_entry_of(s, (n - 1) as nat, b));
                }
            }
        } else {
            assert(cur == prev);
            assert forall|k: int| 0 <= k < cur.len() implies commitment_entry_of(s, n, k) < n by {
                assert(commitment_entry_of(s, n, k) == commitment_entry_of(s, (n - 1) as nat, k));
            }
            assert forall|a: int, b: int| 0 <= a < b < cur.len() implies commitment_entry_of(s, n, a)
                < commitment_entry_of(s, n, b) by {
                assert(commitment_entry_of(s, n, a) == commitment_entry_of(s, (n - 1) as nat, a));
                assert(commitment_entry_of(s, n, b) == commitment_entry_of(s, (n - 1) as nat, b));
            }
            assert forall|k: int, t: nat|
                0 <= k < cur.len() && #[trigger] has_seat(cur[k].seats.0, t) implies t == commitment_entry_of(s, n, k)
                && t < n by {
                assert(commitment_entry_of(s, n, k) == commitment_entry_of(s, (n - 1) as nat, k));
            }
        }
    }
}

/// The seat of the `k`th entry of what the first `n` seats committed.
pub open spec fn commitment_entry_of(s: Seq<Seat>, n: nat, k: int) -> int
    decreases n,
{
    if n == 0 {
        0
    } else if s[n - 1].player.chips_in_play > 0 && k == commitment_entries(s, (n - 1) as nat).len() {
        n - 1
    } else {
        commitment_entry_of(s, (n - 1) as nat, k)
    }
}

/// No two entries of what the seats committed share a seat.
pub proof fn lemma_commitment_disjoint(s: Seq<Seat>, n: nat)
    requires
        n <= s.len() <= 256,
    ensures
        crate::casino::equity::table_equity::masks_disjoint(commitment_entries(s, n)),
{
    lemma_commitment_from_seats(s, n);
    let c = commitment_entries(s, n);
    assert forall|a: int, b: int| 0 <= a < c.len() && 0 <= b < c.len() && a != b implies (#[trigger] c[a]).seats.0
        & (#[trigger] c[b]).seats.0 == 0 by {
        assert forall|t: nat| !(#[trigger] has_seat(c[a].seats.0, t) && has_seat(c[b].seats.0, t)) by {
            if has_seat(c[a].seats.0, t) && has_seat(c[b].seats.0, t) {
                assert(commitment_entry_of(s, n, a) == t);
                assert(commitment_entry_of(s, n, b) == t);
                if a < b {
                    assert(commitment_entry_of(s, n, a) < commitment_entry_of(s, n, b));
                } else {
                    assert(commitment_entry_of(s, n, b) < commitment_entry_of(s, n, a));
                }
            }
        }
        crate::casino::equity::table_equity::lemma_no_common_seat(c[a].seats.0, c[b].seats.0);
    }
}

/// The chips of a prefix of the seats are part of what all committed.
pub proof fn lemma_committed_prefix(s: Seq<Seat>, i: int)
    requires
        0 <= i <= s.len(),
    ensures
        committed(s.subrange(0, i)) <= committed(s),
    decreases s.len() - i,
{
    if i < s.len() {
        lemma_committed_prefix(s, i + 1);
        assert(s.subrange(0, i + 1).drop_last() =~= s.subrange(0, i));
    } else {
        assert(s.subrange(0, i) =~= s);
    }
}

/// Seat `t` is a seat of `s` still in the hand.
pub open spec fn seated_in_hand(s: Seq<Seat>, t: nat) -> bool {
    t < s.len() && s[t as int].in_hand()
}

/// Every seat an entry of `equity` holds is a seat of `s` still in the hand.
pub open spec fn masks_within(equity: Seq<SeatEquity>, s: Seq<Seat>) -> bool {
    forall|j: int, t: nat| 0 <= j < equity.len() && #[trigger] has_seat(equity[j].seats.0, t) ==> seated_in_hand(s, t)
}

/// The entries of what the seats committed hold only seats in the hand.
pub proof fn lemma_masks_commitment(s: Seq<Seat>, n: nat)
    requires
        n <= s.len() <= 256,
    ensures
        masks_within(commitment_entries(s, n), s),
    decreases n,
{
    if n > 0 {
        lemma_masks_commitment(s, (n - 1) as nat);
        let prev = commitment_entries(s, (n - 1) as nat);
        let x = s[n - 1];
        crate::casino::table::seats::seatbit::lemma_from_spec_has((n - 1) as u8);
        crate::casino::table::seats::seatbit::lemma_none_has();
        let cur = commitment_entries(s, n);
        assert forall|j: int, t: nat| 0 <= j < cur.len() && #[trigger] has_seat(cur[j].seats.0, t) implies seated_in_hand(s, t) by {
            if j < prev.len() {
                assert(cur[j] == prev[j]);
            } else if x.in_hand() {
                assert(cur[j].seats == Seatbit::from_spec((n - 1) as u8));
                assert(t == n - 1);
            } else {
                assert(cur[j].seats.0 == 0);
            }
        }
    }
}

/// What a winner leaves holds no seat the equity did not hold.
pub proof fn lemma_masks_leftovers(equity: Seq<SeatEquity>, w: usize, s: Seq<Seat>)
    requires
        masks_within(equity, s),
    ensures
        masks_within(crate::casino::equity::table_equity::leftovers(equity, w), s),
    decreases equity.len(),
{
    if equity.len() > 0 {
        let rest = equity.drop_last();
        assert forall|j: int, t: nat| 0 <= j < rest.len() && #[trigger] has_seat(rest[j].seats.0, t) implies seated_in_hand(s, t) by {
            assert(rest[j] == equity[j]);
        }
        lemma_masks_leftovers(rest, w, s);
        let left = crate::casino::equity::table_equity::leftovers(rest, w);
        let cur = crate::casino::equity::table_equity::leftovers(equity, w);
        assert forall|j: int, t: nat| 0 <= j < cur.len() && #[trigger] has_seat(cur[j].seats.0, t) implies seated_in_hand(s, t) by {
            if j < left.len() {
                assert(cur[j] == left[j]);
            } else {
                assert(cur[j].seats == equity[equity.len() - 1].seats);
            }
        }
    }
}

/// Merging entries joins their masks and holds no other seat.
pub proof fn lemma_masks_merged(equity: Seq<SeatEquity>, keep_none: bool, s: Seq<Seat>)
    requires
        masks_within(equity, s),
    ensures
        masks_within(crate::casino::table::seats::table_equity::merged(equity, keep_none), s),
    decreases equity.len(),
{
    if equity.len() > 0 {
        let rest = equity.drop_last();
        assert forall|j: int, t: nat| 0 <= j < rest.len() && #[trigger] has_seat(rest[j].seats.0, t) implies seated_in_hand(s, t) by {
            assert(rest[j] == equity[j]);
        }
        lemma_masks_merged(rest, keep_none, s);
        let m = crate::casino::table::seats::table_equity::merged(rest, keep_none);
        let e = equity.last();
        let cur = crate::casino::table::seats::table_equity::merged(equity, keep_none);
        assert(e == equity[equity.len() - 1]);
        if m.len() > 0 {
            crate::casino::table::seats::seatbit::lemma_or_has(m.last().seats.0, e.seats.0);
        }
        assert forall|j: int, t: nat| 0 <= j < cur.len() && #[trigger] has_seat(cur[j].seats.0, t) implies seated_in_hand(s, t) by {
            if j < m.len() - 1 {
                assert(cur[j] == m[j]);
            } else if j == m.len() - 1 {
                if !(has_seat(m[j].seats.0, t)) {
                    assert(has_seat(e.seats.0, t));
                }
            } else {
                assert(cur[j] == e);
            }
        }
    }
}

/// Consolidating an equity holds no seat it did not hold.
pub proof fn lemma_masks_consolidated(equity: Seq<SeatEquity>, keep_none: bool, s: Seq<Seat>)
    requires
        masks_within(equity, s),
    ensures
        masks_within(crate::casino::table::seats::table_equity::consolidated(equity, keep_none), s),
{
    if equity.len() > 1 {
        let leq = |a: SeatEquity, b: SeatEquity| crate::casino::table::seats::seat_equity::equity_leq(a, b);
        crate::casino::table::seats::seat_equity::lemma_equity_order_total();
        equity.lemma_sort_by_ensures(leq);
        let sorted = crate::casino::table::seats::seat_equity::sorted_equities(equity);
        assert(sorted == equity.sort_by(leq));
        assert forall|j: int, t: nat| 0 <= j < sorted.len() && #[trigger] has_seat(sorted[j].seats.0, t) implies seated_in_hand(s, t) by {
            assert(sorted.contains(sorted[j]));
            assert(equity.contains(sorted[j]));
            let k = choose|k: int| 0 <= k < equity.len() && equity[k] == sorted[j];
            assert(has_seat(equity[k].seats.0, t));
        }
        lemma_masks_merged(sorted, keep_none, s);
    }
}

impl Table {
    /// The hand's equity from what each seat committed: a seat still in
    /// the hand claims its own chips, any other seat's chips are dead
    /// money; equal commitments of real seats are merged.
    pub fn determine_hand_equity(&self) -> (e: crate::casino::equity::table_equity::TableEquity)
        requires
            self.seats@.len() <= 256,
        ensures
            e@ == crate::casino::table::seats::table_equity::consolidated(
                commitment_entries(self.seats@, self.seats@.len()),
                true,
            ),
    {
        let mut v: Vec<SeatEquity> = Vec::new();
        let mut i: usize = 0;
        while i < self.seats.0.len()
            invariant
                i <= self.seats@.len() <= 256,
                v@ == commitment_entries(self.seats@, i as nat),
            decreases self.seats@.len() - i,
        {
            let seat = &self.seats.0[i];
            if seat.player.chips_in_play > 0 {
                let bits = if seat.is_in_hand() {
                    Seatbit::from_seat(i as u8)
                } else {
                    Seatbit::none()
                };
                v.push(SeatEquity::new(seat.player.chips_in_play, bits));
            }
            i = i + 1;
        }
        crate::casino::equity::table_equity::TableEquity::new(v)
    }
}

/// The chip level of `seat` in the equity: the chips of the first entry
/// holding it.
fn level_of(equity: &Vec<SeatEquity>, seat: u8) -> (r: Option<usize>)
    ensures
        r is None <==> forall|i: int| 0 <= i < equity@.len() ==> !has_seat(#[trigger] equity@[i].seats.0, seat as nat),
        r matches Some(c) ==> exists|k: int|
            0 <= k < equity@.len() && has_seat(equity@[k].seats.0, seat as nat) && equity@[k].chips == c,
{
    match find_seat(equity, seat) {
        Some(k) => Some(equity[k].chips),
        None => None,
    }
}

/// Whether some entry holds `seat` at exactly `level` chips.
pub open spec fn at_level(equity: Seq<SeatEquity>, seat: u8, level: usize) -> bool {
    exists|k: int| 0 <= k < equity.len() && has_seat(equity[k].seats.0, seat as nat) && equity[k].chips == level
}

/// The seats of `candidates` held by some entry at exactly `level` chips,
/// in order.
fn tied_at(candidates: &Vec<u8>, equity: &Vec<SeatEquity>, level: usize) -> (v: Vec<u8>)
    ensures
        v@ == candidates@.filter(|s: u8| at_level(equity@, s, level)),
{
    let mut v: Vec<u8> = Vec::new();
    let mut i: usize = 0;
    while i < candidates.len()
        invariant
            i <= candidates@.len(),
            v@ == candidates@.subrange(0, i as int).filter(|s: u8| at_level(equity@, s, level)),
        decreases candidates@.len() - i,
    {
        let s = candidates[i];
        let mut found = false;
        let mut k: usize = 0;
        while k < equity.len()
            invariant
                k <= equity@.len(),
                found <==> exists|j: int|
                    0 <= j < k && has_seat(equity@[j].seats.0, s as nat) && equity@[j].chips == level,
            decreases equity@.len() - k,
        {
            if equity[k].seats.contains(s) && equity[k].chips == level {
                found = true;
            }
            k = k + 1;
        }
        proof {
            assert(candidates@.subrange(0, i + 1) =~= candidates@.subrange(0, i as int).push(s));
            candidates@.subrange(0, i as int).lemma_filter_push(s, |x: u8| at_level(equity@, x, level));
        }
        if found {
            v.push(s);
        }
        i = i + 1;
    }
    proof {
        assert(candidates@.subrange(0, candidates@.len() as int) =~= candidates@);
    }
    v
}

/// Whether `x` is among `v`.
fn contains_level(v: &Vec<usize>, x: usize) -> (b: bool)
    ensures
        b == v@.contains(x),
{
    let mut i: usize = 0;
    while i < v.len()
        invariant
            i <= v@.len(),
            forall|k: int| 0 <= k < i ==> v@[k] != x,
        decreases v@.len() - i,
    {
        if v[i] == x {
            proof {
                assert(v@[i as int] == x);
            }
            return true;
        }
        i = i + 1;
    }
    false
}

/// Whether some entry holds `seat`.
pub open spec fn held(equity: Seq<SeatEquity>, seat: u8) -> bool {
    exists|j: int| 0 <= j < equity.len() && has_seat(equity[j].seats.0, seat as nat)
}

/// The seats held by the entries with a real mask, in seat order.
fn eligible_seats(equity: &Vec<SeatEquity>) -> (v: Vec<u8>)
    ensures
        forall|k: int| 0 <= k < v@.len() ==> held(equity@, #[trigger] v@[k]),
        v@.len() == 0 ==> forall|j: int| 0 <= j < equity@.len() ==> (#[trigger] equity@[j]).seats.0 == 0,
        forall|t: u8| #[trigger] held(equity@, t) ==> v@.contains(t),
{
    let mut v: Vec<u8> = Vec::new();
    let mut s: u8 = 0;
    while s < 16
        invariant
            s <= 16,
            forall|k: int| 0 <= k < v@.len() ==> held(equity@, #[trigger] v@[k]),
            v@.len() == 0 ==> forall|j: int, t: nat| 0 <= j < equity@.len() && t < s ==> !#[trigger] has_seat(equity@[j].seats.0, t),
            forall|t: u8| t < s && #[trigger] held(equity@, t) ==> v@.contains(t),
        decreases 16 - s,
    {
        let ghost before = v@;
        match find_seat(equity, s) {
            Some(k) => {
                v.push(s);
                proof {
                    assert(has_seat(equity@[k as int].seats.0, s as nat));
                    assert(held(equity@, s));
                    assert forall|m: int| 0 <= m < v@.len() implies held(equity@, #[trigger] v@[m]) by {
                        if m < before.len() {
                            assert(v@[m] == before[m]);
                        }
                    }
                    assert forall|t: u8| t < s + 1 && #[trigger] held(equity@, t) implies v@.contains(t) by {
                        if t < s {
                            let m = choose|m: int| 0 <= m < before.len() && before[m] == t;
                            assert(v@[m] == t);
                        } else {
                            assert(v@[before.len() as int] == t);
                        }
                    }
                }
            },
            None => {
                proof {
                    if v@.len() == 0 {
                        assert forall|j: int, t: nat| 0 <= j < equity@.len() && t < s + 1 implies !#[trigger] has_seat(
                            equity@[j].seats.0,
                            t,
                        ) by {
                            if t == s as nat {
                                assert(!has_seat(equity@[j].seats.0, s as nat));
                            }
                        }
                    }
                }
            },
        }
        s = s + 1;
    }
    proof {
        assert forall|t: u8| #[trigger] held(equity@, t) implies v@.contains(t) by {
            let j = choose|j: int| 0 <= j < equity@.len() && has_seat(equity@[j].seats.0, t as nat);
            assert(t < 16);
        }
        if v@.len() == 0 {
            assert forall|j: int| 0 <= j < equity@.len() implies (#[trigger] equity@[j]).seats.0 == 0 by {
                let b = equity@[j].seats.0;
                assert(!has_seat(b, 0) && !has_seat(b, 1) && !has_seat(b, 2) && !has_seat(b, 3));
                assert(!has_seat(b, 4) && !has_seat(b, 5) && !has_seat(b, 6) && !has_seat(b, 7));
                assert(!has_seat(b, 8) && !has_seat(b, 9) && !has_seat(b, 10) && !has_seat(b, 11));
                assert(!has_seat(b, 12) && !has_seat(b, 13) && !has_seat(b, 14) && !has_seat(b, 15));
                assert(b == 0) by (bit_vector)
                    requires
                        (b >> 0u16) & 1u16 != 1u16, (b >> 1u16) & 1u16 != 1u16, (b >> 2u16) & 1u16 != 1u16,
                        (b >> 3u16) & 1u16 != 1u16, (b >> 4u16) & 1u16 != 1u16, (b >> 5u16) & 1u16 != 1u16,
                        (b >> 6u16) & 1u16 != 1u16, (b >> 7u16) & 1u16 != 1u16, (b >> 8u16) & 1u16 != 1u16,
                        (b >> 9u16) & 1u16 != 1u16, (b >> 10u16) & 1u16 != 1u16, (b >> 11u16) & 1u16 != 1u16,
                        (b >> 12u16) & 1u16 != 1u16, (b >> 13u16) & 1u16 != 1u16, (b >> 14u16) & 1u16 != 1u16,
                        (b >> 15u16) & 1u16 != 1u16,
                ;
            }
        }
    }
    v
}

/// The chips of the entries with no seat: dead money nobody can claim.
pub open spec fn dead_money(s: Seq<SeatEquity>) -> nat
    decreases s.len(),
{
    if s.len() == 0 {
        0
    } else {
        dead_money(s.drop_last()) + if s.last().seats.0 == 0 {
            s.last().chips as nat
        } else {
            0
        }
    }
}

/// Dead money is part of the equity's weight.
pub proof fn lemma_dead_money_le(s: Seq<SeatEquity>)
    ensures
        dead_money(s) <= crate::casino::equity::table_equity::weight(s),
    decreases s.len(),
{
    if s.len() > 0 {
        lemma_dead_money_le(s.drop_last());
        let e = s.last();
        if e.seats.0 != 0 {
            assert((e.chips as nat) * crate::casino::equity::table_equity::contributors(e) >= 0) by (nonlinear_arith);
        }
    }
}

/// When no entry holds a seat, all the equity weighs is dead money.
pub proof fn lemma_dead_money_is_weight(s: Seq<SeatEquity>)
    requires
        forall|j: int| 0 <= j < s.len() ==> (#[trigger] s[j]).seats.0 == 0,
    ensures
        dead_money(s) == crate::casino::equity::table_equity::weight(s),
    decreases s.len(),
{
    if s.len() > 0 {
        let rest = s.drop_last();
        assert forall|j: int| 0 <= j < rest.len() implies (#[trigger] rest[j]).seats.0 == 0 by {
            assert(rest[j] == s[j]);
        }
        lemma_dead_money_is_weight(rest);
        assert(s.last() == s[s.len() - 1]);
        assert(crate::casino::equity::table_equity::contributors(s.last()) == 1);
        assert((s.last().chips as nat) * 1 == s.last().chips as nat);
    }
}

fn sum_dead_money(equity: &Vec<SeatEquity>) -> (n: usize)
    requires
        crate::casino::equity::table_equity::weight(equity@) <= usize::MAX,
    ensures
        n == dead_money(equity@),
{
    let mut n: usize = 0;
    let mut i: usize = 0;
    while i < equity.len()
        invariant
            i <= equity@.len(),
            n == dead_money(equity@.subrange(0, i as int)),
            crate::casino::equity::table_equity::weight(equity@) <= usize::MAX,
        decreases equity@.len() - i,
    {
        proof {
            assert(equity@.subrange(0, i + 1).drop_last() =~= equity@.subrange(0, i as int));
            lemma_dead_money_le(equity@.subrange(0, i + 1));
            crate::casino::equity::table_equity::lemma_weight_prefix(equity@, i + 1);
        }
        if equity[i].seats.0 == 0 {
            n = n + equity[i].chips;
        }
        i = i + 1;
    }
    proof {
        assert(equity@.subrange(0, equity@.len() as int) =~= equity@);
    }
    n
}

/// The position key a winner is ordered by: the index of the first entry
/// holding the seat, zero when none does.
pub open spec fn level_rank(equity: Seq<SeatEquity>, seat: u8) -> nat {
    if exists|k: int| 0 <= k < equity.len() && has_seat(equity[k].seats.0, seat as nat) {
        (choose|k: int|
            0 <= k < equity.len() && has_seat(equity[k].seats.0, seat as nat) && forall|i: int|
                0 <= i < k ==> !has_seat(#[trigger] equity[i].seats.0, seat as nat)) as nat
    } else {
        0
    }
}

/// The index of the first entry of the equity holding `seat`; 0 when none
/// does.
pub open spec fn level_index(equity: Seq<SeatEquity>, seat: u8) -> int {
    if exists|k: int| 0 <= k < equity.len() && has_seat(#[trigger] equity[k].seats.0, seat as nat) {
        choose|k: int|
            0 <= k < equity.len() && has_seat(#[trigger] equity[k].seats.0, seat as nat) && forall|i: int|
                0 <= i < k ==> !has_seat(#[trigger] equity[i].seats.0, seat as nat)
    } else {
        0
    }
}

proof fn lemma_level_index(equity: Seq<SeatEquity>, seat: u8, k: int)
    requires
        0 <= k < equity.len(),
        has_seat(equity[k].seats.0, seat as nat),
        forall|i: int| 0 <= i < k ==> !has_seat(#[trigger] equity[i].seats.0, seat as nat),
    ensures
        level_index(equity, seat) == k,
{
    let j = level_index(equity, seat);
    assert(0 <= j < equity.len() && has_seat(equity[j].seats.0, seat as nat) && forall|i: int|
        0 <= i < j ==> !has_seat(#[trigger] equity[i].seats.0, seat as nat));
    if j < k {
        assert(!has_seat(equity[j].seats.0, seat as nat));
    }
    if k < j {
        assert(!has_seat(equity[k].seats.0, seat as nat));
    }
}

/// Inserting a seat with its key where the keys stop being at least as
/// large keeps the keys paired with the seats and in falling order.
/// Inserting a seat with its key keeps the keys paired with the seats.
proof fn lemma_insert_paired(sorted: Seq<u8>, keys: Seq<usize>, equity: Seq<SeatEquity>, p: int, s: u8, key: usize)
    requires
        0 <= p <= keys.len() == sorted.len(),
        forall|k: int| 0 <= k < keys.len() ==> keys[k] == level_index(equity, #[trigger] sorted[k]),
        key == level_index(equity, s),
    ensures
        forall|k: int|
            0 <= k < keys.len() + 1 ==> keys.insert(p, key)[k] == level_index(equity, #[trigger] sorted.insert(p, s)[k]),
{
    let ks = keys.insert(p, key);
    let ss = sorted.insert(p, s);
    assert forall|k: int| 0 <= k < ks.len() implies ks[k] == level_index(equity, #[trigger] ss[k]) by {
        if k < p {
            assert(ks[k] == keys[k] && ss[k] == sorted[k]);
        } else if k > p {
            assert(ks[k] == keys[k - 1] && ss[k] == sorted[k - 1]);
        }
    }
}

/// Inserting a key where the keys stop being at least as large keeps them
/// in falling order.
proof fn lemma_insert_falling(keys: Seq<usize>, p: int, key: usize)
    requires
        0 <= p <= keys.len(),
        forall|a: int, b: int| 0 <= a < b < keys.len() ==> #[trigger] keys[a] >= #[trigger] keys[b],
        forall|k: int| 0 <= k < p ==> #[trigger] keys[k] >= key,
        p < keys.len() ==> keys[p] < key,
    ensures
        forall|a: int, b: int|
            0 <= a < b < keys.len() + 1 ==> #[trigger] keys.insert(p, key)[a] >= #[trigger] keys.insert(p, key)[b],
{
    let ks = keys.insert(p, key);
    assert forall|a: int, b: int| 0 <= a < b < ks.len() implies #[trigger] ks[a] >= #[trigger] ks[b] by {
        if b < p {
            assert(ks[a] == keys[a] && ks[b] == keys[b]);
        } else if b == p {
            assert(ks[a] == keys[a]);
        } else if a < p {
            assert(ks[a] == keys[a] && ks[b] == keys[b - 1]);
        } else if a == p {
            assert(ks[b] == keys[b - 1]);
            if b - 1 > p {
                assert(keys[p] >= keys[b - 1]);
            }
        } else {
            assert(ks[a] == keys[a - 1] && ks[b] == keys[b - 1]);
        }
    }
}

/// The index of a seat's level in the equity, as `find_seat` gives it.
fn level_key(equity: &Vec<SeatEquity>, s: u8) -> (key: usize)
    ensures
        key == level_index(equity@, s),
{
    match find_seat(equity, s) {
        Some(k) => {
            proof {
                lemma_level_index(equity@, s, k as int);
            }
            k
        },
        None => 0,
    }
}

/// Orders the winners from the lowest chip level to the highest: by the
/// index of their level in the equity, highest index first, keeping the
/// order of equal indices.
fn sort_by_level(v: &Vec<u8>, equity: &Vec<SeatEquity>) -> (r: Vec<u8>)
    ensures
        r@.to_multiset() == v@.to_multiset(),
        r@.len() == v@.len(),
        forall|i: int, j: int|
            0 <= i < j < r@.len() ==> level_index(equity@, #[trigger] r@[i]) >= level_index(equity@, #[trigger] r@[j]),
{
    let mut sorted: Vec<u8> = Vec::new();
    let mut keys: Vec<usize> = Vec::new();
    let mut i: usize = 0;
    proof {
        broadcast use vstd::seq_lib::group_to_multiset_ensures, vstd::multiset::group_multiset_axioms;

        assert(v@.subrange(0, 0) =~= sorted@);
    }
    while i < v.len()
        invariant
            i <= v@.len(),
            sorted@.len() == keys@.len() == i,
            sorted@.to_multiset() == v@.subrange(0, i as int).to_multiset(),
            forall|k: int| 0 <= k < keys@.len() ==> keys@[k] == level_index(equity@, #[trigger] sorted@[k]),
            forall|a: int, b: int| 0 <= a < b < keys@.len() ==> #[trigger] keys@[a] >= #[trigger] keys@[b],
        decreases v@.len() - i,
    {
        let s = v[i];
        let key = level_key(equity, s);
        let mut p: usize = 0;
        while p < sorted.len() && keys[p] >= key
            invariant
                p <= sorted@.len() == keys@.len(),
                forall|k: int| 0 <= k < p ==> #[trigger] keys@[k] >= key,
            decreases sorted@.len() - p,
        {
            p = p + 1;
        }
        let ghost before = sorted@;
        let ghost kb = keys@;
        proof {
            lemma_insert_paired(before, kb, equity@, p as int, s, key);
            lemma_insert_falling(kb, p as int, key);
        }
        sorted.insert(p, s);
        keys.insert(p, key);
        proof {
            broadcast use vstd::seq_lib::group_to_multiset_ensures;

            assert(sorted@ == before.insert(p as int, s));
            assert(v@.subrange(0, i + 1) =~= v@.subrange(0, i as int).push(s));
        }
        i = i + 1;
    }
    proof {
        assert(v@.subrange(0, v@.len() as int) =~= v@);
        assert forall|a: int, b: int| 0 <= a < b < sorted@.len() implies level_index(equity@, #[trigger] sorted@[a])
            >= level_index(equity@, #[trigger] sorted@[b]) by {
            assert(keys@[a] >= keys@[b]);
        }
    }
    sorted
}

/// `longer` is `log` with entries appended.
pub open spec fn extends(log: Seq<TableAction>, longer: Seq<TableAction>) -> bool {
    longer.len() >= log.len() && longer.subrange(0, log.len() as int) == log
}

/// Appending to a log keeps what it extended.
pub proof fn lemma_extends_push(log: Seq<TableAction>, longer: Seq<TableAction>, a: TableAction)
    requires
        extends(log, longer),
    ensures
        extends(log, longer.push(a)),
{
    assert(longer.push(a).subrange(0, log.len() as int) =~= longer.subrange(0, log.len() as int));
}

/// Extending an extension extends the first.
pub proof fn lemma_extends_trans(a: Seq<TableAction>, b: Seq<TableAction>, c: Seq<TableAction>)
    requires
        extends(a, b),
        extends(b, c),
    ensures
        extends(a, c),
{
    assert(c.subrange(0, a.len() as int) =~= b.subrange(0, a.len() as int));
}

/// A log extends itself, and whatever is appended to it.
pub proof fn lemma_extends_append(log: Seq<TableAction>, more: Seq<TableAction>)
    ensures
        extends(log, log),
        extends(log, log + more),
{
    assert(log.subrange(0, log.len() as int) =~= log);
    assert((log + more).subrange(0, log.len() as int) =~= log);
}

/// A seat as a payout leaves it: the same player, no bet in front, and an
/// empty seat untouched in its chips and in what it committed.
pub open spec fn settled(before: Seat, after: Seat) -> bool {
    &&& after.player.id == before.player.id
    &&& after.player.handle == before.player.handle
    &&& after.player.bet == 0
    &&& after.cards == before.cards
    &&& before.vacant() ==> after.player.chips == before.player.chips
        && after.player.chips_in_play == before.player.chips_in_play
}

/// The deck, the board and the muck are the same at both tables.
pub open spec fn same_cards_off_seats(a: Table, b: Table) -> bool {
    a.deck == b.deck && a.board == b.board && a.muck == b.muck
}

/// Every seat of `after` is settled from the same seat of `before`.
pub open spec fn all_settled(before: Seq<Seat>, after: Seq<Seat>) -> bool {
    &&& after.len() == before.len()
    &&& forall|j: int| 0 <= j < after.len() ==> settled(before[j], #[trigger] after[j])
}

/// Paying `seat` can only reach an occupied seat of `s`.
pub open spec fn payable(s: Seq<Seat>, seat: u8) -> bool {
    (seat as int) < s.len() && !s[seat as int].vacant()
}

impl Table {
    /// Adds `amount` to the stack at `seat`; a seat past the end of the ring
    /// gets nothing.
    fn pay(&mut self, seat: u8, amount: usize)
        requires
            holdings(old(self).seats@) + amount <= usize::MAX,
        ensures
            final(self).forced == old(self).forced && final(self).id == old(self).id,
            (seat as int) < old(self).seats@.len() ==> final(self).seats@ == old(self).seats@.update(
                seat as int,
                Seat {
                    player: crate::casino::table::player::Player {
                        chips: (old(self).seats@[seat as int].player.chips + amount) as usize,
                        ..old(self).seats@[seat as int].player
                    },
                    ..old(self).seats@[seat as int]
                },
            ),
            (seat as int) >= old(self).seats@.len() ==> final(self).seats@ == old(self).seats@,
            final(self).seats@.len() == old(self).seats@.len(),
            holdings(final(self).seats@) <= holdings(old(self).seats@) + amount,
            (seat as int) < old(self).seats@.len() ==> holdings(final(self).seats@) == holdings(old(self).seats@) + amount,
            forall|j: int|
                0 <= j < final(self).seats@.len() ==> (#[trigger] final(self).seats@[j]).player.bet
                    == old(self).seats@[j].player.bet,
            *final(self) == (Table { seats: final(self).seats, ..*old(self) }),
    {
        if (seat as usize) < self.seats.0.len() {
            let idx = seat as usize;
            let ghost mid = self.seats@;
            proof {
                crate::casino::table::seats::lemma_seat_holdings_le(mid, idx as int);
            }
            self.seats.0[idx].player.chips = self.seats.0[idx].player.chips + amount;
            proof {
                assert(self.seats@ =~= mid.update(idx as int, self.seats@[idx as int]));
                lemma_holdings_update(mid, idx as int, self.seats@[idx as int]);
            }
        }
    }
}

/// Adds `amount` to what `seat` has won so far.
fn record_win(per_seat: &mut Vec<(u8, usize)>, seat: u8, amount: usize, cap: Ghost<nat>)
    requires
        forall|k: int| 0 <= k < old(per_seat)@.len() ==> (#[trigger] old(per_seat)@[k]).1 <= cap@,
        cap@ + amount <= usize::MAX,
    ensures
        forall|k: int| 0 <= k < final(per_seat)@.len() ==> (#[trigger] final(per_seat)@[k]).1 <= cap@ + amount,
        (forall|k: int| 0 <= k < old(per_seat)@.len() ==> (#[trigger] old(per_seat)@[k]).0 != seat) ==> final(per_seat)@
            == old(per_seat)@.push((seat, amount)),
        (exists|k: int| 0 <= k < old(per_seat)@.len() && (#[trigger] old(per_seat)@[k]).0 == seat) ==> exists|i: int|
            0 <= i < old(per_seat)@.len() && (#[trigger] old(per_seat)@[i]).0 == seat && (forall|k: int|
                0 <= k < i ==> (#[trigger] old(per_seat)@[k]).0 != seat) && final(per_seat)@ == old(per_seat)@.update(
                i,
                (seat, (old(per_seat)@[i].1 + amount) as usize),
            ),
{
    let mut i: usize = 0;
    while i < per_seat.len()
        invariant
            i <= per_seat@.len(),
            per_seat@ == old(per_seat)@,
            forall|k: int| 0 <= k < per_seat@.len() ==> (#[trigger] per_seat@[k]).1 <= cap@,
            cap@ + amount <= usize::MAX,
            forall|k: int| 0 <= k < i ==> (#[trigger] per_seat@[k]).0 != seat,
        decreases per_seat@.len() - i,
    {
        if per_seat[i].0 == seat {
            let ghost before = per_seat@;
            let total = per_seat[i].1 + amount;
            per_seat.set(i, (seat, total));
            proof {
                assert forall|k: int| 0 <= k < per_seat@.len() implies (#[trigger] per_seat@[k]).1 <= cap@ + amount by {
                    if k != i {
                        assert(per_seat@[k] == before[k]);
                    }
                }
                assert(before[i as int].0 == seat);
                assert(per_seat@ == before.update(i as int, (seat, (before[i as int].1 + amount) as usize)));
            }
            return ;
        }
        i = i + 1;
    }
    per_seat.push((seat, amount));
}

/// A seat's own mask meets an entry's mask exactly when the entry holds
/// the seat.
pub proof fn lemma_claims_holds(e: SeatEquity, seat: u8)
    ensures
        crate::casino::equity::table_equity::claims(e, Seatbit::from_spec(seat)) ==> has_seat(
            e.seats.0,
            seat as nat,
        ),
{
    let b = e.seats.0;
    if seat < 16 {
        let s = seat as u16;
        assert(b & (1u16 << s) != 0 ==> (b >> s) & 1u16 == 1u16) by (bit_vector)
            requires
                s < 16,
        ;
        assert((seat as nat) as u16 == s);
    } else {
        assert(b & 0u16 == 0u16) by (bit_vector);
    }
}

/// An entry holding a seat claims it.
pub proof fn lemma_holds_claims(e: SeatEquity, seat: u8)
    requires
        has_seat(e.seats.0, seat as nat),
    ensures
        crate::casino::equity::table_equity::claims(e, Seatbit::from_spec(seat)),
{
    let b = e.seats.0;
    let s = seat as u16;
    assert((seat as nat) as u16 == s);
    assert(b != 0 && b & (1u16 << s) != 0) by (bit_vector)
        requires
            s < 16,
            (b >> s) & 1u16 == 1u16,
    ;
}

/// A seat an entry holds is a seat in the hand, and so has a rank.
proof fn lemma_held_ranked(equity: Seq<SeatEquity>, s: Seq<Seat>, ranks: Seq<HandRank>, seat: u8)
    requires
        held(equity, seat),
        masks_within(equity, s),
        ranks.len() >= s.len(),
    ensures
        (seat as int) < ranks.len(),
{
    let j = choose|j: int| 0 <= j < equity.len() && has_seat(equity[j].seats.0, seat as nat);
    assert(seated_in_hand(s, seat as nat));
}

/// The budget of a payout: the chips paid so far plus what the equity
/// still weighs stay within what it weighed at the start.
pub open spec fn within_budget(paid: nat, equity: Seq<SeatEquity>, start: nat) -> bool {
    paid + crate::casino::equity::table_equity::weight(equity) <= start
}

impl Table {
    /// Pays `total` split evenly between `seats`, each share logged as a
    /// main-pot or side-pot win and recorded.
    fn pay_shares(
        &mut self,
        seats: &Vec<u8>,
        total: usize,
        main_pot: bool,
        per_seat: &mut Vec<(u8, usize)>,
        paid: Ghost<nat>,
        h0: Ghost<nat>,
        orig: Ghost<Seq<Seat>>,
    )
        requires
            seats@.len() > 0,
            all_settled(orig@, old(self).seats@),
            forall|k: int| 0 <= k < seats@.len() ==> payable(orig@, #[trigger] seats@[k]),
            holdings(old(self).seats@) <= h0@ + paid@,
            h0@ + paid@ + total <= usize::MAX,
            forall|k: int| 0 <= k < old(per_seat)@.len() ==> (#[trigger] old(per_seat)@[k]).1 <= paid@,
        ensures
            final(self).forced == old(self).forced && final(self).id == old(self).id,
            final(self).seats@.len() == old(self).seats@.len(),
            holdings(final(self).seats@) <= h0@ + paid@ + total,
            holdings(final(self).seats@) == holdings(old(self).seats@) + total,
            forall|j: int|
                0 <= j < old(self).seats@.len() && (forall|k: int| 0 <= k < seats@.len() ==> seats@[k] as int != j) ==> (
                #[trigger] final(self).seats@[j]).player.chips == old(self).seats@[j].player.chips,
            forall|j: int|
                0 <= j < final(self).seats@.len() ==> (#[trigger] final(self).seats@[j]).player.bet
                    == old(self).seats@[j].player.bet,
            forall|k: int| 0 <= k < final(per_seat)@.len() ==> (#[trigger] final(per_seat)@[k]).1 <= paid@ + total,
            extends(old(self).event_log@, final(self).event_log@),
            all_settled(orig@, final(self).seats@),
            *final(self) == (Table { seats: final(self).seats, event_log: final(self).event_log, ..*old(self) }),
    {
        let n = seats.len();
        let shares = Stack(total).divvy_up(n);
        proof {
            lemma_extends_append(old(self).event_log@, seq![]);
        }
        let mut i: usize = 0;
        while i < n
            invariant
                i <= n == seats@.len() == shares@.len(),
                stack_total(shares@) == total,
                self.seats@.len() == old(self).seats@.len(),
                holdings(self.seats@) <= h0@ + paid@ + stack_total(shares@.subrange(0, i as int)),
                holdings(self.seats@) == holdings(old(self).seats@) + stack_total(shares@.subrange(0, i as int)),
                old(self).seats@.len() == orig@.len(),
                forall|j: int|
                    0 <= j < old(self).seats@.len() && (forall|k: int| 0 <= k < seats@.len() ==> seats@[k] as int != j) ==> (
                    #[trigger] self.seats@[j]).player.chips == old(self).seats@[j].player.chips,
                h0@ + paid@ + total <= usize::MAX,
                forall|k: int|
                    0 <= k < per_seat@.len() ==> (#[trigger] per_seat@[k]).1 <= paid@ + stack_total(
                        shares@.subrange(0, i as int),
                    ),
                forall|j: int|
                    0 <= j < self.seats@.len() ==> (#[trigger] self.seats@[j]).player.bet
                        == old(self).seats@[j].player.bet,
                extends(old(self).event_log@, self.event_log@),
                all_settled(orig@, self.seats@),
                forall|k: int| 0 <= k < seats@.len() ==> payable(orig@, #[trigger] seats@[k]),
                *self == (Table { seats: self.seats, event_log: self.event_log, ..*old(self) }),
            decreases n - i,
        {
            proof {
                lemma_stack_total_prefix(shares@, i + 1);
                assert(shares@.subrange(0, i + 1).drop_last() =~= shares@.subrange(0, i as int));
            }
            let seat = seats[i];
            let share = shares[i].0;
            let ghost mid = self.seats@;
            self.pay(seat, share);
            proof {
                assert(payable(orig@, seats@[i as int]));
                assert forall|j: int|
                    0 <= j < old(self).seats@.len() && (forall|k: int| 0 <= k < seats@.len() ==> seats@[k] as int != j) implies (
                    #[trigger] self.seats@[j]).player.chips == old(self).seats@[j].player.chips by {
                    assert(seats@[i as int] as int != j);
                    assert(self.seats@[j] == mid[j]);
                }
                assert forall|j: int| 0 <= j < self.seats@.len() implies settled(orig@[j], #[trigger] self.seats@[j]) by {
                    assert(settled(orig@[j], mid[j]));
                }
            }
            if main_pot {
                let ghost prior = self.event_log@;
                self.log(TableAction::PlayerWinsMainPot(seat, share));
                proof {
                    lemma_extends_push(old(self).event_log@, prior, TableAction::PlayerWinsMainPot(seat, share));
                }
            } else {
                let ghost prior = self.event_log@;
                self.log(TableAction::PlayerWinsSidePot(seat, share));
                proof {
                    lemma_extends_push(old(self).event_log@, prior, TableAction::PlayerWinsSidePot(seat, share));
                }
            }
            record_win(per_seat, seat, share, Ghost(paid@ + stack_total(shares@.subrange(0, i as int))));
            i = i + 1;
        }
        proof {
            assert(shares@.subrange(0, n as int) =~= shares@);
        }
    }
}

/// A winner's take and what the equity weighs after it stay within what
/// the equity weighed before, and the equity loses an entry.
pub proof fn lemma_payout_step(
    before: Seq<SeatEquity>,
    sb: Seatbit,
    total: nat,
    after: Seq<SeatEquity>,
)
    requires
        exists|k: int|
            0 <= k < before.len() && crate::casino::equity::table_equity::claims(before[k], sb) && total
                == crate::casino::equity::table_equity::taken(before, before[k].chips as nat) && after
                == crate::casino::table::seats::table_equity::consolidated(
                crate::casino::equity::table_equity::leftovers(before, before[k].chips),
                true,
            ),
    ensures
        total + crate::casino::equity::table_equity::weight(after)
            <= crate::casino::equity::table_equity::weight(before),
        after.len() < before.len(),
        crate::casino::equity::table_equity::masks_disjoint(before) ==> total
            + crate::casino::equity::table_equity::weight(after) == crate::casino::equity::table_equity::weight(before)
            && crate::casino::equity::table_equity::masks_disjoint(after),
{
    let k = choose|k: int|
        0 <= k < before.len() && crate::casino::equity::table_equity::claims(before[k], sb) && total
            == crate::casino::equity::table_equity::taken(before, before[k].chips as nat) && after
            == crate::casino::table::seats::table_equity::consolidated(
            crate::casino::equity::table_equity::leftovers(before, before[k].chips),
            true,
        );
    let w = before[k].chips;
    let left = crate::casino::equity::table_equity::leftovers(before, w);
    crate::casino::equity::table_equity::lemma_winnings_conserve(before, w);
    crate::casino::equity::table_equity::lemma_consolidated_weight(left);
    crate::casino::equity::table_equity::lemma_leftovers_len(before, w);
    assert(before[k].chips <= w);
    if crate::casino::equity::table_equity::masks_disjoint(before) {
        crate::casino::equity::table_equity::lemma_leftovers_disjoint(before, w);
        crate::casino::equity::table_equity::lemma_consolidated_weight_disjoint(left);
    }
}

impl Table {
    /// A showdown between three or more seats: the equity of what each seat
    /// committed is taken, the bets are closed out into the pot and the
    /// active seats are at showdown; then the best hands are paid from the
    /// lowest chip level up (ties at a level share), each taking from every
    /// entry up to its level, and what is left goes round again to the best
    /// hand among the seats still holding chips in it; dead money nobody can
    /// claim goes to the last winner. The pot is emptied.
    fn process_multiway(&mut self, ranks: &Vec<HandRank>) -> (r: Result<Vec<Winnings>, PKError>)
        requires
            old(self).wf(),
            ranks@.len() >= old(self).seats@.len(),
            exists|i: int| 0 <= i < old(self).seats@.len() && (#[trigger] old(self).seats@[i]).in_hand(),
            holdings(old(self).seats@) + old(self).pot + committed(old(self).seats@) <= usize::MAX,
        ensures
            final(self).forced == old(self).forced && final(self).id == old(self).id,
            final(self).seats@.len() == old(self).seats@.len(),
            extends(old(self).event_log@, final(self).event_log@),
            r is Err ==> final(self).wf(),
            r is Ok ==> final(self).pot == 0 && holdings(final(self).seats@) + bets(old(self).seats@)
                <= holdings(old(self).seats@) + committed(old(self).seats@),
            r is Ok ==> holdings(final(self).seats@) + bets(old(self).seats@) == holdings(old(self).seats@)
                + committed(old(self).seats@),
            r is Ok ==> side_pots_paid(*old(self), ranks@, final(self).seats@),
            r is Ok ==> forall|j: int|
                0 <= j < final(self).seats@.len() ==> (#[trigger] final(self).seats@[j]).player.bet == 0,
            r is Ok ==> all_settled(old(self).seats@, final(self).seats@),
            r is Ok ==> same_cards_off_seats(*old(self), *final(self)),
            r is Ok <==> crate::casino::table::seats::betting_complete(old(self).seats@) && !bet_off_hand(old(self).seats@),
            !crate::casino::table::seats::betting_complete(old(self).seats@) ==> r == Err::<Vec<Winnings>, PKError>(PKError::ActionIsntFinished),
            crate::casino::table::seats::betting_complete(old(self).seats@) && bet_off_hand(old(self).seats@) ==> r == Err::<Vec<Winnings>, PKError>(
                PKError::InvalidTableAction,
            ),
    {
        let ghost before = *self;
        let mut equity = self.determine_hand_equity();
        proof {
            let n = before.seats@.len();
            lemma_commitment_weight(before.seats@, n);
            assert(before.seats@.subrange(0, n as int) =~= before.seats@);
            crate::casino::equity::table_equity::lemma_consolidated_weight(commitment_entries(before.seats@, n));
            lemma_masks_commitment(before.seats@, n);
            lemma_masks_consolidated(commitment_entries(before.seats@, n), true, before.seats@);
            lemma_commitment_disjoint(before.seats@, n);
            crate::casino::equity::table_equity::lemma_consolidated_weight_disjoint(commitment_entries(before.seats@, n));
        }
        match self.close_it_out() {
            Ok(_) => {},
            Err(e) => {
                proof {
                    lemma_extends_append(before.event_log@, seq![]);
                }
                return Err(e);
            },
        }
        proof {
            lemma_extends_append(
                before.event_log@,
                seq![
                    TableAction::BringItIn(bets(before.seats@) as usize),
                    TableAction::PotSize(self.pot),
                    TableAction::CloseItOut(self.pot),
                ],
            );
        }
        proof {
            crate::casino::table::seats::lemma_holdings_closed_out(before.seats@);
        }
        let pot = self.pot;
        let ghost closed = self.seats@;
        self.seats.showdown(pot);
        proof {
            crate::casino::table::dealing::lemma_holdings_same_stacks(closed, self.seats@);
            assert forall|j: int| 0 <= j < self.seats@.len() implies settled(before.seats@[j], #[trigger] self.seats@[j]) by {
                assert(closed[j] == closed_out(before.seats@[j]));
            }
        }
        self.pot = 0;
        let ghost s0 = self.seats@;
        let ghost e0 = equity@;
        let ghost mut trace: Seq<Payout> = Seq::empty();
        proof {
            assert(s0 =~= showdown_seats(before));
            assert forall|j: int| 0 <= j < before.seats@.len() && (#[trigger] before.seats@[j]).in_hand() implies s0[j].in_hand() by {
                lemma_showdown_keeps_in_hand(before.seats@[j], pot);
            }
        }
        let ghost h0: nat = holdings(self.seats@);
        let ghost w0: nat = crate::casino::equity::table_equity::weight(equity@);
        let ghost mut paid: nat = 0;
        let overall_raw = self.winning_seats(ranks);
        let overall = sort_by_level(&overall_raw, &equity.0);
        proof {
            broadcast use vstd::seq_lib::group_to_multiset_ensures;

            let i0 = choose|i: int| 0 <= i < before.seats@.len() && (#[trigger] before.seats@[i]).in_hand();
            assert(closed[i0] == closed_out(before.seats@[i0]));
            assert(self.seats@[i0].in_hand());
            lemma_best_rank(self.seats@, ranks@, self.seats@.len());
            let b = best_rank(self.seats@, ranks@, self.seats@.len());
            let iw = choose|i: int| 0 <= i < self.seats@.len() && (#[trigger] self.seats@[i]).in_hand() && ranks@[i].0 == b->0;
            assert(is_winner(self.seats@, ranks@, iw));
            assert(overall_raw@.contains(iw as u8));
            assert(overall_raw@.len() > 0);
            assert(overall@.len() > 0);

            assert forall|k: int| 0 <= k < overall@.len() implies payable(before.seats@, #[trigger] overall@[k])
                && is_winner(s0, ranks@, overall@[k] as int) by {
                assert(overall@.to_multiset().count(overall@[k]) > 0);
                assert(overall_raw@.contains(overall@[k]));
                let m = choose|m: int| 0 <= m < overall_raw@.len() && overall_raw@[m] == overall@[k];
                assert(is_winner(self.seats@, ranks@, overall_raw@[m] as int));
                assert(settled(before.seats@[overall@[k] as int], self.seats@[overall@[k] as int]));
            }
        }
        let mut per_seat: Vec<(u8, usize)> = Vec::new();
        let mut processed: Vec<usize> = Vec::new();
        let mut last_winner: Option<u8> = None;
        let mut wi: usize = 0;
        while wi < overall.len()
            invariant
                self.forced == old(self).forced && self.id == old(self).id,
                wi <= overall@.len(),
                before == *old(self),
                self.pot == 0,
                self.seats@.len() == before.seats@.len(),
                forall|j: int| 0 <= j < self.seats@.len() ==> (#[trigger] self.seats@[j]).player.bet == 0,
                within_budget(paid, equity@, w0),
                paid + crate::casino::equity::table_equity::weight(equity@) == w0,
                crate::casino::equity::table_equity::masks_disjoint(equity@),
                holdings(self.seats@) == h0 + paid,
                w0 == committed(before.seats@),
                overall@.len() > 0,
                w0 <= committed(before.seats@),
                h0 + w0 <= usize::MAX,
                holdings(self.seats@) <= h0 + paid,
                h0 + pot == holdings(before.seats@) + before.pot,
                forall|k: int| 0 <= k < per_seat@.len() ==> (#[trigger] per_seat@[k]).1 <= paid,
                extends(before.event_log@, self.event_log@),
                all_settled(before.seats@, self.seats@),
                same_cards_off_seats(before, *self),
                masks_within(equity@, before.seats@),
                forall|k: int| 0 <= k < overall@.len() ==> payable(before.seats@, #[trigger] overall@[k]),
                last_winner matches Some(w) ==> payable(before.seats@, w),
                ranks@.len() >= self.seats@.len(),
                payouts_chain(ranks@, e0, s0, trace),
                chain_equity(e0, trace) == equity@,
                chain_seats(s0, trace) == self.seats@,
                s0.len() == before.seats@.len(),
                forall|j: int| 0 <= j < before.seats@.len() && (#[trigger] before.seats@[j]).in_hand() ==> s0[j].in_hand(),
                forall|k: int| 0 <= k < overall@.len() ==> is_winner(s0, ranks@, #[trigger] overall@[k] as int),
            decreases overall@.len() - wi,
        {
            if equity.is_empty() {
                break;
            }
            let winner = overall[wi];
            wi = wi + 1;
            let level = match level_of(&equity.0, winner) {
                Some(c) => c,
                None => {
                    continue;
                },
            };
            if contains_level(&processed, level) {
                continue;
            }
            processed.push(level);
            let tied = tied_at(&overall, &equity.0, level);
            proof {
                assert(at_level(equity@, winner, level));
                overall@.lemma_filter_contains(|s: u8| at_level(equity@, s, level), (wi - 1) as int);
                assert(tied@.contains(winner));
            }
            let (total, remaining) = match equity.winnings(Seatbit::from_seat(winner)) {
                Some(p) => p,
                None => {
                    break;
                },
            };
            proof {
                lemma_payout_step(equity@, Seatbit::from_spec(winner), total as nat, remaining@);
                let k = choose|k: int|
                    0 <= k < equity@.len() && crate::casino::equity::table_equity::claims(
                        equity@[k],
                        Seatbit::from_spec(winner),
                    ) && remaining@ == crate::casino::table::seats::table_equity::consolidated(
                        crate::casino::equity::table_equity::leftovers(equity@, equity@[k].chips),
                        true,
                    );
                lemma_masks_leftovers(equity@, equity@[k].chips, before.seats@);
                lemma_masks_consolidated(
                    crate::casino::equity::table_equity::leftovers(equity@, equity@[k].chips),
                    true,
                    before.seats@,
                );
                assert forall|k: int| 0 <= k < tied@.len() implies payable(before.seats@, #[trigger] tied@[k]) by {
                    assert(tied@.contains(tied@[k]));
                    overall@.lemma_filter_contains_rev(|s: u8| at_level(equity@, s, level), tied@[k]);
                }
            }
            let ghost eq_before = equity@;
            let ghost seats_before = self.seats@;
            equity = remaining;
            let main_pot = processed.len() == 1;
            let ghost log_before = self.event_log@;
            self.pay_shares(&tied, total, main_pot, &mut per_seat, Ghost(paid), Ghost(h0), Ghost(before.seats@));
            proof {
                lemma_extends_trans(before.event_log@, log_before, self.event_log@);
                let pay: Payout = (eq_before, tied@, total as nat, remaining@, seats_before, self.seats@);
                assert forall|k: int, t: u8| 0 <= k < tied@.len() && #[trigger] held(eq_before, t) implies (tied@[k] as int)
                    < ranks@.len() && (t as int) < ranks@.len() && ranks@[#[trigger] tied@[k] as int].0 <= ranks@[t as int].0 by {
                    assert(tied@.contains(tied@[k]));
                    overall@.lemma_filter_contains_rev(|s: u8| at_level(eq_before, s, level), tied@[k]);
                    let m = choose|m: int| 0 <= m < overall@.len() && overall@[m] == tied@[k];
                    assert(is_winner(s0, ranks@, overall@[m] as int));
                    lemma_overall_best(s0, before.seats@, ranks@, eq_before, tied@[k], t);
                }
                lemma_level_payout(ranks@, eq_before, tied@, winner, total as nat, remaining@, seats_before, self.seats@);
                lemma_chain_push(ranks@, e0, s0, trace, pay);
                trace = trace.push(pay);
            }
            proof {
                paid = paid + total as nat;
                assert(payable(before.seats@, overall@[wi - 1]));
            }
            last_winner = Some(winner);
        }
        while !equity.is_empty()
            invariant_except_break
                chain_equity(e0, trace) == equity@,
            invariant
                self.forced == old(self).forced && self.id == old(self).id,
                before == *old(self),
                self.pot == 0,
                self.seats@.len() == before.seats@.len(),
                forall|j: int| 0 <= j < self.seats@.len() ==> (#[trigger] self.seats@[j]).player.bet == 0,
                within_budget(paid, equity@, w0),
                paid + crate::casino::equity::table_equity::weight(equity@) == w0,
                crate::casino::equity::table_equity::masks_disjoint(equity@),
                holdings(self.seats@) == h0 + paid,
                w0 == committed(before.seats@),
                overall@.len() > 0,
                w0 <= committed(before.seats@),
                h0 + w0 <= usize::MAX,
                holdings(self.seats@) <= h0 + paid,
                h0 + pot == holdings(before.seats@) + before.pot,
                forall|k: int| 0 <= k < per_seat@.len() ==> (#[trigger] per_seat@[k]).1 <= paid,
                extends(before.event_log@, self.event_log@),
                ranks@.len() >= self.seats@.len(),
                all_settled(before.seats@, self.seats@),
                same_cards_off_seats(before, *self),
                masks_within(equity@, before.seats@),
                forall|k: int| 0 <= k < overall@.len() ==> payable(before.seats@, #[trigger] overall@[k]),
                last_winner matches Some(w) ==> payable(before.seats@, w),
                payouts_chain(ranks@, e0, s0, trace),
                chain_seats(s0, trace) == self.seats@,
            ensures
                equity@.len() == 0,
                paid + crate::casino::equity::table_equity::weight(equity@) == w0,
                holdings(self.seats@) == h0 + paid,
                payouts_chain(ranks@, e0, s0, trace),
                crate::casino::equity::table_equity::weight(chain_equity(e0, trace)) == 0,
                chain_seats(s0, trace) == self.seats@,
            decreases equity@.len(),
        {
            let eligible = eligible_seats(&equity.0);
            if eligible.len() == 0 {
                proof {
                    lemma_dead_money_le(equity@);
                    lemma_dead_money_is_weight(equity@);
                }
                let orphaned = sum_dead_money(&equity.0);
                if orphaned > 0 {
                    let recipient = match last_winner {
                        Some(w) => Some(w),
                        None => if overall.len() > 0 {
                            Some(overall[0])
                        } else {
                            None
                        },
                    };
                    proof {
                        lemma_dead_money_is_weight(equity@);
                    }
                    match recipient {
                        Some(seat) => {
                            let ghost mid = self.seats@;
                            let ghost eq_before = equity@;
                            self.pay(seat, orphaned);
                            proof {
                                let pay: Payout = (eq_before, seq![seat], orphaned as nat, Seq::empty(), mid, self.seats@);
                                crate::casino::table::seats::seatbit::lemma_none_has();
                                assert forall|t: u8| !held(eq_before, t) by {
                                    if held(eq_before, t) {
                                        let j = choose|j: int| 0 <= j < eq_before.len() && has_seat(eq_before[j].seats.0, t as nat);
                                        assert(eq_before[j].seats.0 == 0);
                                    }
                                }
                                assert(payable(before.seats@, seat));
                                assert forall|j: int|
                                    0 <= j < mid.len() && (forall|k: int| 0 <= k < seq![seat].len() ==> seq![seat][k] as int != j) implies (
                                    #[trigger] self.seats@[j]).player.chips == mid[j].player.chips by {
                                    assert(seq![seat][0] as int != j);
                                }
                                assert(pay.1.len() > 0);
                                assert(forall|j: int| 0 <= j < eq_before.len() ==> (#[trigger] eq_before[j]).seats.0 == 0);
                                assert(orphaned as nat == crate::casino::equity::table_equity::weight(eq_before));
                                assert(pay.5.len() == pay.4.len());
                                assert(holdings(pay.5) == holdings(pay.4) + orphaned);
                                assert(payout_to_best(ranks@, pay)) by {
                                    reveal(payout_to_best);
                                }
                                lemma_chain_push(ranks@, e0, s0, trace, pay);
                                trace = trace.push(pay);
                            }
                            proof {
                                assert(payable(before.seats@, seat));
                                assert forall|j: int| 0 <= j < self.seats@.len() implies settled(
                                    before.seats@[j],
                                    #[trigger] self.seats@[j],
                                ) by {
                                    assert(settled(before.seats@[j], mid[j]));
                                }
                            }
                            record_win(&mut per_seat, seat, orphaned, Ghost(paid));
                            let ghost prior = self.event_log@;
                            self.log(TableAction::PlayerWinsSidePot(seat, orphaned));
                            proof {
                                lemma_extends_push(before.event_log@, prior, TableAction::PlayerWinsSidePot(seat, orphaned));
                            }
                            proof {
                                paid = paid + orphaned as nat;
                            }
                        },
                        None => {},
                    }
                }
                equity = crate::casino::equity::table_equity::TableEquity(Vec::new());
                break;
            }
            let mut best: Option<u16> = None;
            let mut i: usize = 0;
            proof {
                lemma_held_ranked(equity@, before.seats@, ranks@, eligible@[0]);
                assert forall|k: int| 0 <= k < eligible@.len() implies (#[trigger] eligible@[k] as int) < ranks@.len() by {
                    lemma_held_ranked(equity@, before.seats@, ranks@, eligible@[k]);
                }
            }
            while i < eligible.len()
                invariant
                    self.forced == old(self).forced && self.id == old(self).id,
                    i <= eligible@.len(),
                    eligible@.len() > 0,
                    (eligible@[0] as int) < ranks@.len(),
                    forall|k: int| 0 <= k < eligible@.len() ==> (#[trigger] eligible@[k] as int) < ranks@.len(),
                    best matches Some(b) ==> forall|k: int| 0 <= k < i ==> b <= ranks@[#[trigger] eligible@[k] as int].0,
                    i > 0 ==> best is Some,
                    best matches Some(b) ==> exists|j: int|
                        0 <= j < i && (#[trigger] eligible@[j] as int) < ranks@.len() && ranks@[eligible@[j] as int].0 == b,
                decreases eligible@.len() - i,
            {
                let s = eligible[i];
                if (s as usize) < ranks.len() {
                    let r = ranks[s as usize].0;
                    best = match best {
                        Some(b) => if r < b {
                            Some(r)
                        } else {
                            Some(b)
                        },
                        None => Some(r),
                    };
                }
                i = i + 1;
            }
            let best = match best {
                Some(b) => b,
                None => {
                    proof {
                        assert(false);
                    }
                    break;
                },
            };
            let ghost jb = choose|j: int|
                0 <= j < eligible@.len() && (#[trigger] eligible@[j] as int) < ranks@.len() && ranks@[eligible@[j] as int].0 == best;
            let mut side_winners: Vec<u8> = Vec::new();
            let mut i: usize = 0;
            while i < eligible.len()
                invariant
                    self.forced == old(self).forced && self.id == old(self).id,
                    i <= eligible@.len(),
                    forall|k: int| 0 <= k < side_winners@.len() ==> held(equity@, #[trigger] side_winners@[k]),
                    forall|k: int| 0 <= k < eligible@.len() ==> held(equity@, #[trigger] eligible@[k]),
                    0 <= jb < eligible@.len() && (eligible@[jb] as int) < ranks@.len() && ranks@[eligible@[jb] as int].0 == best,
                    jb < i ==> side_winners@.len() > 0,
                    forall|k: int| 0 <= k < side_winners@.len() ==> (#[trigger] side_winners@[k] as int) < ranks@.len()
                        && ranks@[side_winners@[k] as int].0 == best,
                    forall|k: int| 0 <= k < eligible@.len() ==> best <= ranks@[#[trigger] eligible@[k] as int].0,
                    forall|k: int| 0 <= k < eligible@.len() ==> (#[trigger] eligible@[k] as int) < ranks@.len(),
                decreases eligible@.len() - i,
            {
                let s = eligible[i];
                if (s as usize) < ranks.len() && ranks[s as usize].0 == best {
                    side_winners.push(s);
                }
                i = i + 1;
            }
            if side_winners.len() == 0 {
                proof {
                    assert(false);
                }
                break;
            }
            let mut lowest_seat = side_winners[0];
            let mut lowest_key: usize = match level_of(&equity.0, lowest_seat) {
                Some(c) => c,
                None => usize::MAX,
            };
            let mut i: usize = 1;
            while i < side_winners.len()
                invariant
                    self.forced == old(self).forced && self.id == old(self).id,
                    1 <= i <= side_winners@.len(),
                    side_winners@.contains(lowest_seat),
                decreases side_winners@.len() - i,
            {
                let s = side_winners[i];
                let key = match level_of(&equity.0, s) {
                    Some(c) => c,
                    None => usize::MAX,
                };
                if key < lowest_key {
                    lowest_key = key;
                    lowest_seat = s;
                }
                i = i + 1;
            }
            let lowest_level = match level_of(&equity.0, lowest_seat) {
                Some(c) => c,
                None => 0,
            };
            let tied_side = tied_at(&side_winners, &equity.0, lowest_level);
            let ghost old_equity = equity@;
            proof {
                assert(held(old_equity, lowest_seat));
                let j = choose|j: int| 0 <= j < old_equity.len() && has_seat(old_equity[j].seats.0, lowest_seat as nat);
                lemma_holds_claims(old_equity[j], lowest_seat);
            }
            let (total, remaining) = match equity.winnings(Seatbit::from_seat(lowest_seat)) {
                Some(p) => p,
                None => {
                    proof {
                        assert(false);
                    }
                    break;
                },
            };
            proof {
                let k = choose|k: int|
                    0 <= k < old_equity.len() && crate::casino::equity::table_equity::claims(
                        old_equity[k],
                        Seatbit::from_spec(lowest_seat),
                    ) && remaining@ == crate::casino::table::seats::table_equity::consolidated(
                        crate::casino::equity::table_equity::leftovers(old_equity, old_equity[k].chips),
                        true,
                    );
                lemma_masks_leftovers(old_equity, old_equity[k].chips, before.seats@);
                lemma_masks_consolidated(
                    crate::casino::equity::table_equity::leftovers(old_equity, old_equity[k].chips),
                    true,
                    before.seats@,
                );
                assert forall|m: int| 0 <= m < tied_side@.len() implies payable(before.seats@, #[trigger] tied_side@[m]) by {
                    assert(tied_side@.contains(tied_side@[m]));
                    side_winners@.lemma_filter_contains_rev(|s: u8| at_level(old_equity, s, lowest_level), tied_side@[m]);
                    let p = choose|p: int| 0 <= p < side_winners@.len() && side_winners@[p] == tied_side@[m];
                    assert(held(old_equity, side_winners@[p]));
                    let j = choose|j: int| 0 <= j < old_equity.len() && has_seat(old_equity[j].seats.0, side_winners@[p] as nat);
                    assert(seated_in_hand(before.seats@, side_winners@[p] as nat));
                }
                lemma_claims_holds(old_equity[k], lowest_seat);
                let pos = choose|p: int| 0 <= p < side_winners@.len() && side_winners@[p] == lowest_seat;
                assert(at_level(old_equity, lowest_seat, lowest_level));
                side_winners@.lemma_filter_contains(|s: u8| at_level(old_equity, s, lowest_level), pos);
                assert(tied_side@.contains(lowest_seat));
                lemma_payout_step(old_equity, Seatbit::from_spec(lowest_seat), total as nat, remaining@);
            }
            let ghost seats_before = self.seats@;
            equity = remaining;
            let ghost log_before = self.event_log@;
            self.pay_shares(&tied_side, total, false, &mut per_seat, Ghost(paid), Ghost(h0), Ghost(before.seats@));
            proof {
                lemma_extends_trans(before.event_log@, log_before, self.event_log@);
                let pay: Payout = (old_equity, tied_side@, total as nat, remaining@, seats_before, self.seats@);
                assert forall|k: int, t: u8| 0 <= k < tied_side@.len() && #[trigger] held(old_equity, t) implies (tied_side@[k] as int)
                    < ranks@.len() && (t as int) < ranks@.len() && ranks@[#[trigger] tied_side@[k] as int].0 <= ranks@[t as int].0 by {
                    assert(tied_side@.contains(tied_side@[k]));
                    side_winners@.lemma_filter_contains_rev(|s: u8| at_level(old_equity, s, lowest_level), tied_side@[k]);
                    let m = choose|m: int| 0 <= m < side_winners@.len() && side_winners@[m] == tied_side@[k];
                    assert(eligible@.contains(t));
                    let e = choose|e: int| 0 <= e < eligible@.len() && eligible@[e] == t;
                    assert(best <= ranks@[eligible@[e] as int].0);
                }
                lemma_level_payout(ranks@, old_equity, tied_side@, lowest_seat, total as nat, remaining@, seats_before, self.seats@);
                lemma_chain_push(ranks@, e0, s0, trace, pay);
                trace = trace.push(pay);
            }
            proof {
                paid = paid + total as nat;
                assert(tied_side@.contains(lowest_seat));
                let m = choose|m: int| 0 <= m < tied_side@.len() && tied_side@[m] == lowest_seat;
                assert(payable(before.seats@, tied_side@[m]));
            }
            last_winner = Some(lowest_seat);
        }
        let mut results: Vec<Winnings> = Vec::new();
        let mut i: usize = 0;
        let ghost seats_end = self.seats@;
        while i < per_seat.len()
            invariant
                self.forced == old(self).forced && self.id == old(self).id,
                self.seats@ == seats_end,
                i <= per_seat@.len(),
            decreases per_seat@.len() - i,
        {
            let (seat, chips) = per_seat[i];
            let eval = if (seat as usize) < ranks.len() {
                ranks[seat as usize]
            } else {
                HandRank(0)
            };
            results.push(Winnings { equity: SeatEquity::new(chips, Seatbit::from_seat(seat)), eval });
            i = i + 1;
        }
        Ok(results)
    }
}

/// One pot paid at a showdown: the equity before it, the seats paid, the
/// chips paid, the equity after it, and the seats before and after.
pub type Payout = (Seq<SeatEquity>, Seq<u8>, nat, Seq<SeatEquity>, Seq<Seat>, Seq<Seat>);

/// Whether `p` pays one pot of its equity to hands that rank at least as
/// well as every seat still holding chips in that equity: the pot is what a
/// paid seat's level takes from every entry (or, when no seat holds chips,
/// all the dead money), only the paid seats' stacks grow, and they grow by
/// the pot.
#[verifier::opaque]
pub open spec fn payout_to_best(ranks: Seq<HandRank>, p: Payout) -> bool {
    let eq = p.0;
    let winners = p.1;
    let amount = p.2;
    let next = p.3;
    let sb = p.4;
    let sa = p.5;
    &&& winners.len() > 0
    &&& forall|k: int, t: u8|
        0 <= k < winners.len() && #[trigger] held(eq, t) ==> (winners[k] as int) < ranks.len() && (t as int) < ranks.len()
            && ranks[#[trigger] winners[k] as int].0 <= ranks[t as int].0
    &&& (exists|ws: u8, k: int|
        {
            &&& winners.contains(ws)
            &&& 0 <= k < eq.len()
            &&& #[trigger] crate::casino::equity::table_equity::claims(eq[k], Seatbit::from_spec(ws))
            &&& forall|i: int| 0 <= i < k ==> !crate::casino::equity::table_equity::claims(#[trigger] eq[i], Seatbit::from_spec(ws))
            &&& amount == crate::casino::equity::table_equity::taken(eq, eq[k].chips as nat)
            &&& next == crate::casino::table::seats::table_equity::consolidated(
                crate::casino::equity::table_equity::leftovers(eq, eq[k].chips),
                true,
            )
        }) || ((forall|j: int| 0 <= j < eq.len() ==> (#[trigger] eq[j]).seats.0 == 0) && amount
        == crate::casino::equity::table_equity::weight(eq) && next.len() == 0)
    &&& sa.len() == sb.len()
    &&& forall|j: int|
        0 <= j < sb.len() && (forall|k: int| 0 <= k < winners.len() ==> winners[k] as int != j) ==> (#[trigger] sa[j]).player.chips
            == sb[j].player.chips
    &&& holdings(sa) == holdings(sb) + amount
}

/// Whether `trace` pays pot after pot, each to the best hands eligible for
/// it, starting from the equity `e0` and the seats `s0`, each payout taking
/// up where the one before left off.
pub open spec fn payouts_chain(ranks: Seq<HandRank>, e0: Seq<SeatEquity>, s0: Seq<Seat>, trace: Seq<Payout>) -> bool {
    forall|k: int|
        0 <= k < trace.len() ==> {
            &&& payout_to_best(ranks, #[trigger] trace[k])
            &&& k == 0 ==> trace[k].0 == e0 && trace[k].4 == s0
            &&& k > 0 ==> trace[k].0 == trace[k - 1].3 && trace[k].4 == trace[k - 1].5
        }
}

/// The equity left after the payouts of `trace`.
pub open spec fn chain_equity(e0: Seq<SeatEquity>, trace: Seq<Payout>) -> Seq<SeatEquity> {
    if trace.len() == 0 {
        e0
    } else {
        trace.last().3
    }
}

/// The seats after the payouts of `trace`.
pub open spec fn chain_seats(s0: Seq<Seat>, trace: Seq<Payout>) -> Seq<Seat> {
    if trace.len() == 0 {
        s0
    } else {
        trace.last().5
    }
}

/// The seats of `t` once its bets are closed out into the pot and its
/// active seats are at showdown.
pub open spec fn showdown_seats(t: Table) -> Seq<Seat> {
    t.seats@.map_values(|x: Seat| crate::casino::table::seats::at_showdown(closed_out(x), (t.pot + bets(t.seats@)) as usize))
}

/// Whether the multiway showdown of `before` paid every pot to the best
/// hands eligible for it, leaving the seats `after`: a chain of payouts
/// from the equity of what the seats committed and the seats at showdown,
/// ending with nothing left in the equity and with `after`.
pub open spec fn side_pots_paid(before: Table, ranks: Seq<HandRank>, after: Seq<Seat>) -> bool {
    let e0 = crate::casino::table::seats::table_equity::consolidated(
        commitment_entries(before.seats@, before.seats@.len()),
        true,
    );
    exists|trace: Seq<Payout>|
        {
            &&& #[trigger] payouts_chain(ranks, e0, showdown_seats(before), trace)
            &&& crate::casino::equity::table_equity::weight(chain_equity(e0, trace)) == 0
            &&& chain_seats(showdown_seats(before), trace).len() == after.len()
            &&& forall|j: int|
                0 <= j < after.len() ==> (#[trigger] after[j]).player.chips == chain_seats(showdown_seats(before), trace)[j].player.chips
        }
}

/// A seat with the best hand among those in the hand ranks at least as
/// well as any seat an equity entry holds, when the entries hold only seats
/// in the hand.
proof fn lemma_overall_best(
    s0: Seq<Seat>,
    before: Seq<Seat>,
    ranks: Seq<HandRank>,
    eq: Seq<SeatEquity>,
    w: u8,
    t: u8,
)
    requires
        is_winner(s0, ranks, w as int),
        held(eq, t),
        masks_within(eq, before),
        s0.len() == before.len(),
        ranks.len() >= s0.len(),
        forall|j: int| 0 <= j < before.len() && (#[trigger] before[j]).in_hand() ==> s0[j].in_hand(),
    ensures
        (w as int) < ranks.len() && (t as int) < ranks.len() && ranks[w as int].0 <= ranks[t as int].0,
{
    let j = choose|j: int| 0 <= j < eq.len() && has_seat(eq[j].seats.0, t as nat);
    assert(seated_in_hand(before, t as nat));
    assert(before[t as int].in_hand());
    lemma_best_rank(s0, ranks, s0.len());
}

/// A pot paid by a winner's level to the seats `winners`, each ranking at
/// least as well as every seat the equity holds, is paid to the best.
proof fn lemma_level_payout(
    ranks: Seq<HandRank>,
    eq: Seq<SeatEquity>,
    winners: Seq<u8>,
    ws: u8,
    total: nat,
    next: Seq<SeatEquity>,
    sb: Seq<Seat>,
    sa: Seq<Seat>,
)
    requires
        winners.contains(ws),
        forall|k: int, t: u8|
            0 <= k < winners.len() && #[trigger] held(eq, t) ==> (winners[k] as int) < ranks.len() && (t as int) < ranks.len()
                && ranks[#[trigger] winners[k] as int].0 <= ranks[t as int].0,
        exists|k: int|
            0 <= k < eq.len() && crate::casino::equity::table_equity::claims(eq[k], Seatbit::from_spec(ws)) && (forall|i: int|
                0 <= i < k ==> !crate::casino::equity::table_equity::claims(#[trigger] eq[i], Seatbit::from_spec(ws))) && total
                == crate::casino::equity::table_equity::taken(eq, eq[k].chips as nat) && next
                == crate::casino::table::seats::table_equity::consolidated(
                crate::casino::equity::table_equity::leftovers(eq, eq[k].chips),
                true,
            ),
        sa.len() == sb.len(),
        forall|j: int|
            0 <= j < sb.len() && (forall|k: int| 0 <= k < winners.len() ==> winners[k] as int != j) ==> (#[trigger] sa[j]).player.chips
                == sb[j].player.chips,
        holdings(sa) == holdings(sb) + total,
    ensures
        payout_to_best(ranks, (eq, winners, total, next, sb, sa)),
{
    reveal(payout_to_best);
    let k = choose|k: int|
        0 <= k < eq.len() && crate::casino::equity::table_equity::claims(eq[k], Seatbit::from_spec(ws)) && (forall|i: int|
            0 <= i < k ==> !crate::casino::equity::table_equity::claims(#[trigger] eq[i], Seatbit::from_spec(ws))) && total
            == crate::casino::equity::table_equity::taken(eq, eq[k].chips as nat) && next
            == crate::casino::table::seats::table_equity::consolidated(
            crate::casino::equity::table_equity::leftovers(eq, eq[k].chips),
            true,
        );
    assert(crate::casino::equity::table_equity::claims(eq[k], Seatbit::from_spec(ws)));
    let p: Payout = (eq, winners, total, next, sb, sa);
    assert(p.1.len() > 0);
    assert(p.1.contains(ws));
    assert(forall|i: int| 0 <= i < k ==> !crate::casino::equity::table_equity::claims(#[trigger] p.0[i], Seatbit::from_spec(ws)));
    assert(p.2 == crate::casino::equity::table_equity::taken(p.0, p.0[k].chips as nat));
    assert(p.3 == crate::casino::table::seats::table_equity::consolidated(
        crate::casino::equity::table_equity::leftovers(p.0, p.0[k].chips),
        true,
    ));
    assert(exists|ws2: u8, k2: int|
        {
            &&& p.1.contains(ws2)
            &&& 0 <= k2 < p.0.len()
            &&& #[trigger] crate::casino::equity::table_equity::claims(p.0[k2], Seatbit::from_spec(ws2))
            &&& forall|i: int| 0 <= i < k2 ==> !crate::casino::equity::table_equity::claims(#[trigger] p.0[i], Seatbit::from_spec(ws2))
            &&& p.2 == crate::casino::equity::table_equity::taken(p.0, p.0[k2].chips as nat)
            &&& p.3 == crate::casino::table::seats::table_equity::consolidated(
                crate::casino::equity::table_equity::leftovers(p.0, p.0[k2].chips),
                true,
            )
        });
    assert(forall|k: int, t: u8|
        0 <= k < p.1.len() && #[trigger] held(p.0, t) ==> (p.1[k] as int) < ranks.len() && (t as int) < ranks.len()
            && ranks[#[trigger] p.1[k] as int].0 <= ranks[t as int].0);
    assert(forall|j: int|
        0 <= j < p.4.len() && (forall|k: int| 0 <= k < p.1.len() ==> p.1[k] as int != j) ==> (#[trigger] p.5[j]).player.chips
            == p.4[j].player.chips);
}

/// One more payout extends the chain.
pub proof fn lemma_chain_push(ranks: Seq<HandRank>, e0: Seq<SeatEquity>, s0: Seq<Seat>, trace: Seq<Payout>, p: Payout)
    requires
        payouts_chain(ranks, e0, s0, trace),
        p.0 == chain_equity(e0, trace),
        p.4 == chain_seats(s0, trace),
        payout_to_best(ranks, p),
    ensures
        payouts_chain(ranks, e0, s0, trace.push(p)),
        chain_equity(e0, trace.push(p)) == p.3,
        chain_seats(s0, trace.push(p)) == p.5,
{
    let t2 = trace.push(p);
    assert forall|k: int| 0 <= k < t2.len() implies {
        &&& payout_to_best(ranks, #[trigger] t2[k])
        &&& k == 0 ==> t2[k].0 == e0 && t2[k].4 == s0
        &&& k > 0 ==> t2[k].0 == t2[k - 1].3 && t2[k].4 == t2[k - 1].5
    } by {
        if k < trace.len() {
            assert(t2[k] == trace[k]);
            if k > 0 {
                assert(t2[k - 1] == trace[k - 1]);
            }
        } else if k > 0 {
            assert(t2[k - 1] == trace.last());
        }
    }
}

/// A seat in the hand stays in the hand when the bets are closed out and
/// the showdown is called.
proof fn lemma_showdown_keeps_in_hand(x: Seat, pot: usize)
    requires
        x.in_hand(),
    ensures
        crate::casino::table::seats::at_showdown(closed_out(x), pot).in_hand(),
{
}

/// Some seat satisfies `p` when a count of such seats is positive.
pub proof fn lemma_count_where_witness(s: Seq<Seat>, p: spec_fn(Seat) -> bool)
    requires
        count_where(s, p) > 0,
    ensures
        exists|i: int| 0 <= i < s.len() && #[trigger] p(s[i]),
    decreases s.len(),
{
    if !p(s.last()) {
        lemma_count_where_witness(s.drop_last(), p);
        let i = choose|i: int| 0 <= i < s.drop_last().len() && #[trigger] p(s.drop_last()[i]);
        assert(s.drop_last()[i] == s[i]);
    } else {
        assert(p(s[s.len() - 1]));
    }
}

/// Some seat that is no longer active still has chips in front of it.
pub open spec fn bet_off_hand(s: Seq<Seat>) -> bool {
    exists|j: int| 0 <= j < s.len() && (#[trigger] s[j]).player.bet > 0 && !s[j].player.state.is_active()
}

/// What a showdown answers, and the chips left at the table after it,
/// `chips_after`: refused with `ActionIsntFinished` while the hand is not
/// over and with `Fubar` when nobody is left in it; a single seat left
/// takes the pot and every bet; with two seats left the best hands share
/// it and no chip is lost; with more, the pot is paid by side pots, every
/// chip the seats committed is paid out, and where the pot and the bets are
/// exactly what the seats committed no chip is lost.
pub open spec fn showdown_result(
    before: Table,
    ranks: Seq<HandRank>,
    r: Result<Vec<Winnings>, PKError>,
    chips_after: nat,
) -> bool {
    let n = count_where(before.seats@, |x: Seat| is_active_seat(x));
    &&& !before.game_over() ==> r == Err::<Vec<Winnings>, PKError>(PKError::ActionIsntFinished)
    &&& before.game_over() && n == 0 ==> r == Err::<Vec<Winnings>, PKError>(PKError::Fubar)
    &&& n == 1 ==> (r matches Ok(w) && exists|i: int|
        0 <= i < before.seats@.len() && #[trigger] is_active_seat(before.seats@[i]) && w@ == seq![
            Winnings {
                equity: SeatEquity {
                    chips: (before.pot + bets(before.seats@)) as usize,
                    seats: Seatbit::from_spec(i as u8),
                },
                eval: ranks[i],
            },
        ])
    &&& n == 2 ==> (r matches Ok(w) ==> w@.len() > 0 && won_by_best(before.seats@, ranks, w@))
    &&& (n == 1 || n == 2) && r is Ok ==> chips_after == before.chips_on_table()
    &&& n >= 3 && r is Ok ==> chips_after + bets(before.seats@) == holdings(before.seats@) + committed(
        before.seats@,
    )
    &&& n >= 3 && r is Ok && committed(before.seats@) == before.pot + bets(before.seats@) ==> chips_after
        == before.chips_on_table()
    &&& n == 2 && before.game_over() ==> (r is Ok <==> !bet_off_hand(before.seats@))
    &&& n == 2 && before.game_over() && bet_off_hand(before.seats@) ==> r == Err::<Vec<Winnings>, PKError>(
        PKError::InvalidTableAction,
    )
    &&& n >= 3 && before.game_over() ==> (r is Ok <==> !bet_off_hand(before.seats@))
    &&& n >= 3 && before.game_over() && bet_off_hand(before.seats@) ==> r == Err::<Vec<Winnings>, PKError>(
        PKError::InvalidTableAction,
    )
}

/// A hand that is over settles: once the table's game is over, with some
/// seat still active and no seat out of the hand holding chips in front of
/// it, the showdown answers `Ok` whatever the hands.
pub proof fn lemma_complete_hand_settles(
    t: Table,
    ranks: Seq<HandRank>,
    r: Result<Vec<Winnings>, PKError>,
    chips_after: nat,
)
    requires
        t.game_over(),
        count_where(t.seats@, |x: Seat| is_active_seat(x)) > 0,
        !bet_off_hand(t.seats@),
        showdown_result(t, ranks, r, chips_after),
    ensures
        r is Ok,
{
}

/// Whether, with two seats left in the hand, the winnings `r` pay the pot
/// and every bet of `before` to the best hands, leaving the stacks of
/// `after` (see `paid_to_best`).
pub open spec fn showdown_paid(before: Table, ranks: Seq<HandRank>, r: Result<Vec<Winnings>, PKError>, after: Seq<Seat>) -> bool {
    &&& count_where(before.seats@, |x: Seat| is_active_seat(x)) == 2 ==> (r matches Ok(w) ==> paid_to_best(
        before,
        ranks,
        w@,
        after,
    ))
    &&& count_where(before.seats@, |x: Seat| is_active_seat(x)) >= 3 ==> (r is Ok ==> side_pots_paid(before, ranks, after))
}

/// Stacks that stay as they were keep the side pots paid as they were.
pub proof fn lemma_side_pots_same_stacks(before: Table, ranks: Seq<HandRank>, a: Seq<Seat>, b: Seq<Seat>)
    requires
        side_pots_paid(before, ranks, a),
        a.len() == b.len(),
        forall|j: int| 0 <= j < a.len() ==> (#[trigger] a[j]).player.chips == b[j].player.chips,
    ensures
        side_pots_paid(before, ranks, b),
{
    let e0 = crate::casino::table::seats::table_equity::consolidated(
        commitment_entries(before.seats@, before.seats@.len()),
        true,
    );
    let trace = choose|trace: Seq<Payout>|
        {
            &&& #[trigger] payouts_chain(ranks, e0, showdown_seats(before), trace)
            &&& crate::casino::equity::table_equity::weight(chain_equity(e0, trace)) == 0
            &&& chain_seats(showdown_seats(before), trace).len() == a.len()
            &&& forall|j: int|
                0 <= j < a.len() ==> (#[trigger] a[j]).player.chips == chain_seats(showdown_seats(before), trace)[j].player.chips
        };
    assert forall|j: int| 0 <= j < b.len() implies (#[trigger] b[j]).player.chips == chain_seats(showdown_seats(before), trace)[j].player.chips by {
        assert(a[j].player.chips == b[j].player.chips);
    }
}

/// Stacks that stay as they were keep a payout as it was.
pub proof fn lemma_paid_same_stacks(before: Table, ranks: Seq<HandRank>, w: Seq<Winnings>, a: Seq<Seat>, b: Seq<Seat>)
    requires
        paid_to_best(before, ranks, w, a),
        a.len() == b.len(),
        forall|j: int| 0 <= j < a.len() ==> (#[trigger] a[j]).player.chips == b[j].player.chips,
    ensures
        paid_to_best(before, ranks, w, b),
{
    let pot = (before.pot + bets(before.seats@)) as nat;
    let v = choose|v: Seq<u8>|
        {
            &&& #[trigger] winners_in_order(before.seats@, ranks, v)
            &&& v.len() == w.len() && v.len() > 0
            &&& forall|k: int|
                0 <= k < v.len() ==> (#[trigger] w[k]) == (Winnings {
                    equity: SeatEquity { chips: share_of(pot, v.len(), k) as usize, seats: Seatbit::from_spec(v[k]) },
                    eval: ranks[v[k] as int],
                })
            &&& a.len() == before.seats@.len()
            &&& forall|k: int|
                0 <= k < v.len() ==> (#[trigger] a[v[k] as int]).player.chips == before.seats@[v[k] as int].player.chips
                    + share_of(pot, v.len(), k)
            &&& forall|j: int|
                0 <= j < a.len() && !v.contains(j as u8) ==> (#[trigger] a[j]).player.chips
                    == before.seats@[j].player.chips
        };
    assert forall|k: int| 0 <= k < v.len() implies (#[trigger] b[v[k] as int]).player.chips
        == before.seats@[v[k] as int].player.chips + share_of(pot, v.len(), k) by {
        assert(winners_in_order(before.seats@, ranks, v));
        assert(is_winner(before.seats@, ranks, v[k] as int));
        assert(a[v[k] as int].player.chips == b[v[k] as int].player.chips);
    }
    assert forall|j: int| 0 <= j < b.len() && !v.contains(j as u8) implies (#[trigger] b[j]).player.chips
        == before.seats@[j].player.chips by {
        assert(a[j].player.chips == b[j].player.chips);
    }
}

/// The end of a hand.
pub struct Showdown;

impl Showdown {
    /// Settles the hand: logs its end, refuses while the hand is not over
    /// (`ActionIsntFinished`) or when nobody is left in it (`Fubar`), and
    /// otherwise pays the pot out by the number of seats still in it, the
    /// strength of each seat's hand given by `ranks`, indexed by seat.
    pub fn process(table: &mut Table, ranks: &Vec<HandRank>) -> (r: Result<Vec<Winnings>, PKError>)
        requires
            old(table).wf(),
            ranks@.len() >= old(table).seats@.len(),
            holdings(old(table).seats@) + old(table).pot + committed(old(table).seats@) <= usize::MAX,
        ensures
            final(table).forced == old(table).forced && final(table).id == old(table).id,
            showdown_result(*old(table), ranks@, r, final(table).chips_on_table()),
            showdown_paid(*old(table), ranks@, r, final(table).seats@),
            final(table).seats@.len() == old(table).seats@.len(),
            final(table).event_log@.len() > old(table).event_log@.len(),
            final(table).event_log@.subrange(0, old(table).event_log@.len() + 1int) == old(
                table,
            ).event_log@.push(TableAction::EndHand),
            r is Err ==> final(table).wf(),
            !old(table).game_over() || count_where(old(table).seats@, |x: Seat| is_active_seat(x)) == 0
                ==> final(table).same_but_log(old(table)) && final(table).event_log@ == old(
                table,
            ).event_log@.push(TableAction::EndHand),
            r is Ok ==> final(table).pot == 0 && all_settled(old(table).seats@, final(table).seats@)
                && same_cards_off_seats(*old(table), *final(table)),
    {
        let ghost before = *table;
        table.log(TableAction::EndHand);
        let ghost logged = *table;
        if !table.is_game_over() {
            return Err(PKError::ActionIsntFinished);
        }
        let n = table.seats.count_active_in_hand();
        if n == 0 {
            return Err(PKError::Fubar);
        }
        let ghost p = |x: Seat| is_active_seat(x);
        proof {
            lemma_count_where_witness(before.seats@, p);
        }
        let r = if n == 1 {
            let active = table.seats.active_in_hand();
            proof {
                let i = choose|i: int| 0 <= i < before.seats@.len() && #[trigger] p(before.seats@[i]);
                assert(active@.contains(i as u8));
            }
            let seat = active[0];
            let r = table.process_single_seat_in_hand(seat, ranks);
            proof {
                assert(is_active_seat(before.seats@[seat as int]));
                crate::casino::table::seats::lemma_holdings_brought_in(before.seats@, freezes(before.seats@));
                assert forall|j: int| 0 <= j < table.seats@.len() implies settled(before.seats@[j], #[trigger] table.seats@[j]) by {}
            }
            r
        } else if n == 2 {
            proof {
                let i = choose|i: int| 0 <= i < before.seats@.len() && #[trigger] p(before.seats@[i]);
                assert(before.seats@[i].in_hand());
            }
            let r = table.process_headsup(ranks);
            proof {
                assert(logged.seats@ == before.seats@);
                assert(logged.seats == before.seats && logged.pot == before.pot);
                if r is Ok {
                    assert(paid_to_best(logged, ranks@, r->Ok_0@, table.seats@));
                    assert(paid_to_best(before, ranks@, r->Ok_0@, table.seats@));
                }
            }
            r
        } else {
            proof {
                let i = choose|i: int| 0 <= i < before.seats@.len() && #[trigger] p(before.seats@[i]);
                assert(before.seats@[i].in_hand());
                assert(logged.seats@ == before.seats@);
            }
            let r = table.process_multiway(ranks);
            proof {
                assert(logged.seats == before.seats && logged.pot == before.pot);
                assert(showdown_seats(logged) == showdown_seats(before));
                if r is Ok {
                    assert(side_pots_paid(logged, ranks@, table.seats@));
                    assert(side_pots_paid(before, ranks@, table.seats@));
                }
            }
            r
        };
        r
    }
}

impl Table {
    /// Ends the hand: settles it as `Showdown::process` does and, once it
    /// is settled, resets the table for the next hand; every card goes back
    /// to the deck in deck order and every seat is ready to be dealt in.
    pub fn end_hand(&mut self, ranks: &Vec<HandRank>) -> (r: Result<Vec<Winnings>, PKError>)
        requires
            old(self).wf(),
            ranks@.len() >= old(self).seats@.len(),
            holdings(old(self).seats@) + old(self).pot + committed(old(self).seats@) <= usize::MAX,
        ensures
            showdown_result(*old(self), ranks@, r, final(self).chips_on_table()),
            showdown_paid(*old(self), ranks@, r, final(self).seats@),
            final(self).seats@.len() == old(self).seats@.len(),
            final(self).wf(),
            !old(self).game_over() || count_where(old(self).seats@, |x: Seat| is_active_seat(x)) == 0
                ==> final(self).same_but_log(old(self)),
            !old(self).game_over() || count_where(old(self).seats@, |x: Seat| is_active_seat(x)) == 0
                ==> final(self).event_log@ == old(self).event_log@.push(TableAction::EndHand),
            r is Ok ==> final(self).pot == 0 && final(self).bet == 0 && bets(final(self).seats@) == 0,
            r is Ok ==> crate::casino::table::dealing::in_deck_order(final(self).deck@),
            r is Ok ==> final(self).deck@.to_multiset() == old(self).cards_at_table(),
            r is Ok ==> final(self).board@.len() == 0 && final(self).muck@.len() == 0,
            r is Ok ==> final(self).dealt_hole_cards@.len() == 0,
            r is Ok ==> final(self).phase == GamePhase::NewHand,
            final(self).forced == old(self).forced && final(self).id == old(self).id,
            r is Ok ==> forall|j: int|
                0 <= j < final(self).seats@.len() ==> (#[trigger] final(self).seats@[j]).cards.dealt@.len()
                    == 0 && (!final(self).seats@[j].vacant() ==> final(self).seats@[j].player.state
                    == crate::casino::state::PlayerState::YetToAct),
    {
        let ghost before = *self;
        let result = Showdown::process(self, ranks);
        let winnings = match result {
            Ok(w) => w,
            Err(e) => {
                return Err(e);
            },
        };
        let ghost mid = *self;
        proof {
            crate::casino::table::dealing::lemma_seat_cards_same_cards(before.seats@, mid.seats@);
            assert(mid.cards_at_table() == before.cards_at_table());
        }
        self.reset();
        self.phase = GamePhase::NewHand;
        proof {
            let n = self.seats@.len();
            assert forall|j: int| 0 <= j < n implies (#[trigger] self.seats@[j]).player.wf() by {
                assert(settled(before.seats@[j], mid.seats@[j]));
                assert(before.seats@[j].player.wf());
            }
            crate::casino::table::seats::lemma_no_bets(self.seats@);
            if count_where(before.seats@, |x: Seat| is_active_seat(x)) == 2 {
                assert forall|j: int| 0 <= j < n implies (#[trigger] mid.seats@[j]).player.chips
                    == self.seats@[j].player.chips by {}
                lemma_paid_same_stacks(before, ranks@, winnings@, mid.seats@, self.seats@);
            }
        }
        Ok(winnings)
    }
}

} // verus!
