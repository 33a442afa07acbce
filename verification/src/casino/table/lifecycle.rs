//! Between hands and when a hand cannot go on: players who have lost every
//! chip leave, and a hand that cannot be finished is unwound, every
//! committed chip going back where it came from.
use vstd::prelude::*;

use crate::casino::table::player::Player;
use crate::casino::table::seat::Seat;
use crate::casino::table::seats::{count_where, holdings, occupied_holdings};
use crate::casino::table::Table;
use crate::error::PKError;

verus! {

/// An occupied seat whose player has no chips left.
pub open spec fn busted(x: Seat) -> bool {
    !x.vacant() && x.player.chips == 0
}

/// An occupied seat whose player has chips.
pub open spec fn funded(x: Seat) -> bool {
    !x.vacant() && x.player.chips > 0
}

/// A seat whose committed chips went back to its stack.
pub open spec fn refunded(x: Seat) -> Seat {
    Seat {
        player: Player {
            chips: (x.player.chips + x.player.chips_in_play) as usize,
            bet: 0,
            chips_in_play: 0,
            ..x.player
        },
        ..x
    }
}

/// All the chips the seats committed to the hand.
pub open spec fn refund_total(s: Seq<Seat>) -> nat
    decreases s.len(),
{
    if s.len() == 0 {
        0
    } else {
        refund_total(s.drop_last()) + s.last().player.chips_in_play as nat
    }
}

impl Table {
    /// Empties every seat whose player has no chips left and answers those
    /// seats, in order.
    pub fn eliminate_busted(&mut self) -> (v: Vec<u8>)
        requires
            old(self).wf(),
        ensures
            final(self).wf(),
            final(self).seats@.len() == old(self).seats@.len(),
            forall|k: int| 0 <= k < v@.len() ==> (#[trigger] v@[k]) < old(self).seats@.len() && busted(
                old(self).seats@[v@[k] as int],
            ),
            forall|i: int| 0 <= i < old(self).seats@.len() && busted(#[trigger] old(self).seats@[i]) ==> v@.contains(i as u8),
            forall|a: int, b: int| 0 <= a < b < v@.len() ==> v@[a] < v@[b],
            forall|i: int|
                0 <= i < old(self).seats@.len() ==> if busted(old(self).seats@[i]) {
                    (#[trigger] final(self).seats@[i]).vacant() && final(self).seats@[i].player.chips == 0
                        && final(self).seats@[i].player.bet == 0 && final(self).seats@[i].player.chips_in_play == 0
                } else {
                    final(self).seats@[i] == old(self).seats@[i]
                },
            *final(self) == (Table { seats: final(self).seats, ..*old(self) }),
    {
        let ghost before = self.seats@;
        let mut v: Vec<u8> = Vec::new();
        let n = self.seats.0.len();
        let mut i: usize = 0;
        while i < n
            invariant
                i <= n == self.seats@.len() == before.len() <= 256,
                before == old(self).seats@,
                old(self).wf(),
                holdings(self.seats@) <= holdings(before),
                crate::casino::table::seats::players_wf(self.seats@),
                forall|k: int| 0 <= k < v@.len() ==> (#[trigger] v@[k]) < i && busted(before[v@[k] as int]),
                forall|j: int| 0 <= j < i && busted(#[trigger] before[j]) ==> v@.contains(j as u8),
                forall|a: int, b: int| 0 <= a < b < v@.len() ==> v@[a] < v@[b],
                forall|j: int|
                    0 <= j < n ==> if j < i && busted(before[j]) {
                        (#[trigger] self.seats@[j]).vacant() && self.seats@[j].player.chips == 0
                            && self.seats@[j].player.bet == 0 && self.seats@[j].player.chips_in_play == 0
                    } else {
                        self.seats@[j] == before[j]
                    },
                *self == (Table { seats: self.seats, ..*old(self) }),
            decreases n - i,
        {
            if !self.seats.0[i].is_empty() && self.seats.0[i].player.chips == 0 {
                let ghost mid = self.seats@;
                let empty = Seat::default();
                proof {
                    crate::casino::table::seats::lemma_seat_holdings_le(mid, i as int);
                    crate::casino::table::seats::lemma_holdings_update(mid, i as int, empty);
                }
                let _ = self.seats.assign(i, empty);
                let ghost pre = v@;
                v.push(i as u8);
                proof {
                    assert forall|j: int| 0 <= j < i + 1 && busted(#[trigger] before[j]) implies v@.contains(j as u8) by {
                        if j < i {
                            let k = choose|k: int| 0 <= k < pre.len() && pre[k] == j as u8;
                            assert(v@[k] == j as u8);
                        } else {
                            assert(v@[pre.len() as int] == j as u8);
                        }
                    }
                    assert forall|j: int| 0 <= j < self.seats@.len() implies (#[trigger] self.seats@[j]).player.wf() by {
                        if j != i {
                            assert(self.seats@[j] == mid[j]);
                        }
                    }
                }
            }
            i = i + 1;
        }
        v
    }

    /// How many occupied seats have chips.
    pub fn count_funded(&self) -> (n: usize)
        requires
            self.seats@.len() <= 256,
        ensures
            n == count_where(self.seats@, |x: Seat| funded(x)),
    {
        let mut n: usize = 0;
        let mut i: usize = 0;
        while i < self.seats.0.len()
            invariant
                i <= self.seats@.len() <= 256,
                n == count_where(self.seats@.subrange(0, i as int), |x: Seat| funded(x)),
                n <= i,
            decreases self.seats@.len() - i,
        {
            proof {
                assert(self.seats@.subrange(0, i + 1).drop_last() =~= self.seats@.subrange(0, i as int));
            }
            if !self.seats.0[i].is_empty() && self.seats.0[i].player.chips > 0 {
                n = n + 1;
            }
            i = i + 1;
        }
        proof {
            assert(self.seats@.subrange(0, self.seats@.len() as int) =~= self.seats@);
        }
        n
    }

    /// Whether no street is left to deal: the river is out.
    pub fn is_last_street(&self) -> (b: bool)
        ensures
            b == (self.board@.len() >= 5),
    {
        self.board.len() >= 5
    }
}

impl Table {
    /// Unwinds a hand that cannot be finished: every chip each player
    /// committed goes back to its stack, the pot is emptied and the table
    /// reset for a new hand; answers the chips handed back, or, when the
    /// chips at the table then differ from the count taken when the hand
    /// started, `ChipAuditFailed`.
    pub fn abort_hand(&mut self) -> (r: Result<usize, PKError>)
        requires
            old(self).wf(),
            holdings(old(self).seats@) + refund_total(old(self).seats@) <= usize::MAX,
        ensures
            final(self).wf(),
            final(self).seats@.len() == old(self).seats@.len(),
            final(self).pot == 0 && final(self).bet == 0,
            final(self).hand_chip_total == old(self).hand_chip_total,
            final(self).forced == old(self).forced && final(self).phase == old(self).phase,
            forall|j: int|
                0 <= j < final(self).seats@.len() ==> (#[trigger] final(self).seats@[j]).player.chips
                    == old(self).seats@[j].player.chips + old(self).seats@[j].player.chips_in_play
                    && final(self).seats@[j].player.bet == 0 && final(self).seats@[j].player.chips_in_play
                    == 0 && final(self).seats@[j].cards.dealt@.len() == 0,
            final(self).deck@.to_multiset() == old(self).cards_at_table(),
            final(self).board@.len() == 0 && final(self).muck@.len() == 0,
            r is Ok <==> occupied_holdings(final(self).seats@) == final(self).hand_chip_total,
            r matches Ok(n) ==> n == refund_total(old(self).seats@),
            r is Err ==> r == Err::<usize, PKError>(PKError::ChipAuditFailed),
    {
        let ghost before = self.seats@;
        let n = self.seats.0.len();
        let mut handed_back: usize = 0;
        let mut i: usize = 0;
        proof {
            assert(before.subrange(0, n as int) =~= before);
            assert(before.subrange(0, 0) =~= Seq::<Seat>::empty());
        }
        while i < n
            invariant
                i <= n == self.seats@.len() == before.len() <= 256,
                before == old(self).seats@,
                old(self).wf(),
                holdings(before) + refund_total(before) <= usize::MAX,
                handed_back == refund_total(before.subrange(0, i as int)),
                holdings(self.seats@) + refund_total(before.subrange(i as int, n as int)) <= holdings(before)
                    + refund_total(before),
                forall|j: int| 0 <= j < i ==> #[trigger] self.seats@[j] == refunded(before[j]),
                forall|j: int| i <= j < n ==> #[trigger] self.seats@[j] == before[j],
                crate::casino::table::seats::players_wf(self.seats@),
                *self == (Table { seats: self.seats, ..*old(self) }),
            decreases n - i,
        {
            let ghost mid = self.seats@;
            proof {
                lemma_refund_total_prefix(before, i + 1);
                assert(before.subrange(0, i + 1).last() == before[i as int]);
                lemma_refund_total_split(before, i as int, n as int);
                assert(before.subrange(0, i + 1).drop_last() =~= before.subrange(0, i as int));
                crate::casino::table::seats::lemma_seat_holdings_le(mid, i as int);
                assert(mid[i as int].player.wf());
            }
            let back = self.seats.0[i].player.chips_in_play;
            let chips = self.seats.0[i].player.chips + back;
            self.seats.0[i].player.chips = chips;
            self.seats.0[i].player.bet = 0;
            self.seats.0[i].player.chips_in_play = 0;
            handed_back = handed_back + back;
            proof {
                assert(self.seats@ =~= mid.update(i as int, self.seats@[i as int]));
                crate::casino::table::seats::lemma_holdings_update(mid, i as int, self.seats@[i as int]);
                assert(self.seats@[i as int] == refunded(before[i as int]));
                assert forall|j: int| 0 <= j < self.seats@.len() implies (#[trigger] self.seats@[j]).player.wf() by {
                    if j != i {
                        assert(self.seats@[j] == mid[j]);
                    }
                }
            }
            i = i + 1;
        }
        proof {
            assert(before.subrange(0, n as int) =~= before);
            assert(before.subrange(n as int, n as int) =~= Seq::<Seat>::empty());
            crate::casino::table::seats::lemma_no_bets(self.seats@);
        }
        self.pot = 0;
        self.bet = 0;
        let ghost unwound = *self;
        proof {
            crate::casino::table::dealing::lemma_seat_cards_same_cards(before, unwound.seats@);
        }
        self.reset();
        let count = self.table_chip_count();
        if count != self.hand_chip_total {
            return Err(PKError::ChipAuditFailed);
        }
        Ok(handed_back)
    }
}

/// What a prefix of the seats committed is part of what all committed.
pub proof fn lemma_refund_total_prefix(s: Seq<Seat>, i: int)
    requires
        0 <= i <= s.len(),
    ensures
        refund_total(s.subrange(0, i)) <= refund_total(s),
    decreases s.len() - i,
{
    if i < s.len() {
        lemma_refund_total_prefix(s, i + 1);
        assert(s.subrange(0, i + 1).drop_last() =~= s.subrange(0, i));
    } else {
        assert(s.subrange(0, i) =~= s);
    }
}

/// What a stretch of the seats committed splits at its first seat.
pub proof fn lemma_refund_total_split(s: Seq<Seat>, i: int, n: int)
    requires
        0 <= i < n <= s.len(),
    ensures
        refund_total(s.subrange(i, n)) == s[i].player.chips_in_play + refund_total(s.subrange(i + 1, n)),
    decreases n - i,
{
    if i + 1 < n {
        lemma_refund_total_split(s, i, n - 1);
        assert(s.subrange(i, n).drop_last() =~= s.subrange(i, n - 1));
        assert(s.subrange(i + 1, n).drop_last() =~= s.subrange(i + 1, n - 1));
    } else {
        assert(s.subrange(i, n).drop_last() =~= s.subrange(i + 1, n));
        assert(s.subrange(i + 1, n) =~= Seq::<Seat>::empty());
    }
}

} // verus!
