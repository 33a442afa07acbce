//! The ring of seats at a table, with the betting-round and chip-accounting
//! rules over it, and the equity vocabulary over sets of seats.
use vstd::prelude::*;

use crate::casino::state::PlayerState;
use crate::casino::table::player::Player;
use crate::casino::table::seat::Seat;
use crate::error::PKError;

pub mod seat_equity;
pub mod seatbit;
pub mod table_equity;

verus! {

/// How many seats of `s` satisfy `p`.
pub open spec fn count_where(s: Seq<Seat>, p: spec_fn(Seat) -> bool) -> nat
    decreases s.len(),
{
    if s.len() == 0 {
        0
    } else {
        count_where(s.drop_last(), p) + if p(s.last()) {
            1nat
        } else {
            0nat
        }
    }
}

/// The chips the players hold: every stack and every street bet.
pub open spec fn holdings(s: Seq<Seat>) -> nat
    decreases s.len(),
{
    if s.len() == 0 {
        0
    } else {
        holdings(s.drop_last()) + s.last().player.holdings()
    }
}

/// All the street bets.
pub open spec fn bets(s: Seq<Seat>) -> nat
    decreases s.len(),
{
    if s.len() == 0 {
        0
    } else {
        bets(s.drop_last()) + (s.last().player.bet as nat)
    }
}

/// The largest street bet of any seat; zero when there is none.
pub open spec fn max_bet(s: Seq<Seat>) -> nat
    decreases s.len(),
{
    if s.len() == 0 {
        0
    } else {
        let m = max_bet(s.drop_last());
        if s.last().player.bet > m {
            s.last().player.bet as nat
        } else {
            m
        }
    }
}

/// The chips held at the occupied seats: stacks and street bets.
pub open spec fn occupied_holdings(s: Seq<Seat>) -> nat
    decreases s.len(),
{
    if s.len() == 0 {
        0
    } else {
        occupied_holdings(s.drop_last()) + if s.last().vacant() {
            0nat
        } else {
            s.last().player.holdings()
        }
    }
}

/// The occupied seats hold no more than all the seats.
pub proof fn lemma_occupied_holdings_le(s: Seq<Seat>)
    ensures
        occupied_holdings(s) <= holdings(s),
    decreases s.len(),
{
    if s.len() > 0 {
        lemma_occupied_holdings_le(s.drop_last());
    }
}

/// Every player's bookkeeping is in order.
pub open spec fn players_wf(s: Seq<Seat>) -> bool {
    forall|i: int| 0 <= i < s.len() ==> (#[trigger] s[i]).player.wf()
}

pub open spec fn is_active_seat(x: Seat) -> bool {
    !x.vacant() && x.player.state.is_active()
}

pub open spec fn has_action_to_give(x: Seat) -> bool {
    !x.vacant() && x.player.state.is_active() && !x.player.all_in()
}

/// A seat whose player still has a decision this hand.
pub open spec fn can_still_act(x: Seat) -> bool {
    !x.vacant() && x.player.state.is_in_hand() && !x.player.all_in()
}

/// Whether the betting round is over, as `is_betting_complete` decides it.
pub open spec fn betting_complete(s: Seq<Seat>) -> bool {
    ||| count_where(s, |x: Seat| is_active_seat(x)) <= 1
    ||| count_where(s, |x: Seat| has_action_to_give(x)) < 1
    ||| forall|i: int|
        0 <= i < s.len() && !(#[trigger] s[i]).vacant() ==> !(s[i].player.state is YetToAct
            || s[i].player.state is Blind) && (s[i].player.all_in() || !s[i].player.state.is_active()
            || s[i].player.bet == max_bet(s))
}

/// Changing one seat changes the chips held by exactly that seat's change.
pub proof fn lemma_holdings_update(s: Seq<Seat>, i: int, x: Seat)
    requires
        0 <= i < s.len(),
    ensures
        holdings(s.update(i, x)) + s[i].player.holdings() == holdings(s) + x.player.holdings(),
    decreases s.len(),
{
    if i < s.len() - 1 {
        lemma_holdings_update(s.drop_last(), i, x);
        assert(s.update(i, x).drop_last() =~= s.drop_last().update(i, x));
    } else {
        assert(s.update(i, x).drop_last() =~= s.drop_last());
    }
}

/// Changing one seat changes the street bets by exactly that seat's change.
pub proof fn lemma_bets_update(s: Seq<Seat>, i: int, x: Seat)
    requires
        0 <= i < s.len(),
    ensures
        bets(s.update(i, x)) + s[i].player.bet == bets(s) + x.player.bet,
    decreases s.len(),
{
    if i < s.len() - 1 {
        lemma_bets_update(s.drop_last(), i, x);
        assert(s.update(i, x).drop_last() =~= s.drop_last().update(i, x));
    } else {
        assert(s.update(i, x).drop_last() =~= s.drop_last());
    }
}

/// A seat holds no more than all the seats together.
pub proof fn lemma_seat_holdings_le(s: Seq<Seat>, i: int)
    requires
        0 <= i < s.len(),
    ensures
        s[i].player.holdings() <= holdings(s),
    decreases s.len(),
{
    if i < s.len() - 1 {
        lemma_seat_holdings_le(s.drop_last(), i);
    }
}

/// Seats each holding no more than before hold no more in all.
pub proof fn lemma_holdings_le_pointwise(s: Seq<Seat>, t: Seq<Seat>)
    requires
        s.len() == t.len(),
        forall|j: int| 0 <= j < s.len() ==> (#[trigger] t[j]).player.holdings() <= s[j].player.holdings(),
    ensures
        holdings(t) <= holdings(s),
    decreases s.len(),
{
    if s.len() > 0 {
        lemma_holdings_le_pointwise(s.drop_last(), t.drop_last());
        assert(t.last().player.holdings() <= s.last().player.holdings());
    }
}

/// Closing out every seat leaves the players holding their stacks.
pub proof fn lemma_holdings_closed_out(s: Seq<Seat>)
    ensures
        holdings(s.map_values(|x: Seat| closed_out(x))) + bets(s) == holdings(s),
    decreases s.len(),
{
    if s.len() > 0 {
        lemma_holdings_closed_out(s.drop_last());
        assert(s.map_values(|x: Seat| closed_out(x)).drop_last() =~= s.drop_last().map_values(
            |x: Seat| closed_out(x),
        ));
    }
}

/// No street bets means no seat has a bet in front.
/// No seat with a bet in front: no bets at all.
pub proof fn lemma_no_bets(s: Seq<Seat>)
    requires
        forall|j: int| 0 <= j < s.len() ==> (#[trigger] s[j]).player.bet == 0,
    ensures
        bets(s) == 0,
    decreases s.len(),
{
    if s.len() > 0 {
        assert(s.last() == s[s.len() - 1]);
        lemma_no_bets(s.drop_last());
    }
}

pub proof fn lemma_bets_zero(s: Seq<Seat>)
    requires
        bets(s) == 0,
    ensures
        forall|j: int| 0 <= j < s.len() ==> (#[trigger] s[j]).player.bet == 0,
    decreases s.len(),
{
    if s.len() > 0 {
        lemma_bets_zero(s.drop_last());
        assert forall|j: int| 0 <= j < s.len() implies (#[trigger] s[j]).player.bet == 0 by {
            if j < s.len() - 1 {
                assert(s[j] == s.drop_last()[j]);
            }
        }
    }
}

/// The street bets are part of the chips the players hold.
pub proof fn lemma_bets_le_holdings(s: Seq<Seat>)
    ensures
        bets(s) <= holdings(s),
    decreases s.len(),
{
    if s.len() > 0 {
        lemma_bets_le_holdings(s.drop_last());
    }
}

/// No seat bets more than the largest bet.
pub proof fn lemma_max_bet(s: Seq<Seat>)
    ensures
        forall|i: int| 0 <= i < s.len() ==> (#[trigger] s[i]).player.bet <= max_bet(s),
        s.len() > 0 ==> exists|i: int| 0 <= i < s.len() && (#[trigger] s[i]).player.bet == max_bet(s),
        s.len() == 0 ==> max_bet(s) == 0,
    decreases s.len(),
{
    if s.len() > 0 {
        lemma_max_bet(s.drop_last());
        let d = s.drop_last();
        assert forall|i: int| 0 <= i < s.len() implies (#[trigger] s[i]).player.bet <= max_bet(s) by {
            if i < d.len() {
                assert(s[i] == d[i]);
            }
        }
        if s.last().player.bet > max_bet(d) {
            assert(s[s.len() - 1].player.bet == max_bet(s));
        } else if d.len() > 0 {
            let k = choose|k: int| 0 <= k < d.len() && (#[trigger] d[k]).player.bet == max_bet(d);
            assert(s[k] == d[k]);
        } else {
            assert(s[0].player.bet == max_bet(s));
        }
    }
}

/// The seats of a table, in ring order.
#[derive(Clone, Debug, PartialEq, Eq)]
pub struct Seats(pub Vec<Seat>);

impl View for Seats {
    type V = Seq<Seat>;

    open spec fn view(&self) -> Seq<Seat> {
        self.0@
    }
}

impl Seats {
    /// The largest ring a table supports.
    pub const MAX_NUMBER_SEATS: u8 = 10;

    pub fn new(seats: Vec<Seat>) -> (s: Seats)
        ensures
            s@ == seats@,
    {
        Seats(seats)
    }

    /// Puts `seat` at `seat_number` and returns whoever was there. Refused
    /// with `TableFull` past the end of the ring.
    pub fn assign(&mut self, seat_number: usize, seat: Seat) -> (r: Result<Seat, PKError>)
        ensures
            seat_number >= old(self)@.len() ==> r == Err::<Seat, PKError>(PKError::TableFull)
                && final(self)@ == old(self)@,
            seat_number < old(self)@.len() ==> r == Ok::<Seat, PKError>(old(self)@[seat_number as int])
                && final(self)@ == old(self)@.update(seat_number as int, seat),
    {
        if seat_number >= self.0.len() {
            return Err(PKError::TableFull);
        }
        let mut seat = seat;
        std::mem::swap(&mut self.0[seat_number], &mut seat);
        Ok(seat)
    }

    /// The number of seats, empty ones included (zero past 255 seats).
    pub fn size(&self) -> (n: u8)
        ensures
            self@.len() <= 255 ==> n == self@.len(),
            self@.len() > 255 ==> n == 0,
    {
        if self.0.len() <= 255 {
            self.0.len() as u8
        } else {
            0
        }
    }

    /// The number of seats that hold a player.
    pub fn count_occupied(&self) -> (n: usize)
        ensures
            n == count_where(self@, |x: Seat| !x.vacant()),
    {
        let mut n: usize = 0;
        let mut i: usize = 0;
        while i < self.0.len()
            invariant
                i <= self@.len(),
                n == count_where(self@.subrange(0, i as int), |x: Seat| !x.vacant()),
                n <= i,
            decreases self@.len() - i,
        {
            proof {
                assert(self@.subrange(0, i + 1).drop_last() =~= self@.subrange(0, i as int));
            }
            if !self.0[i].is_empty() {
                n = n + 1;
            }
            i = i + 1;
        }
        proof {
            assert(self@.subrange(0, self@.len() as int) =~= self@);
        }
        n
    }

    pub fn get_seat(&self, idx: u8) -> (r: Option<&Seat>)
        ensures
            idx < self@.len() ==> r == Some(&self@[idx as int]),
            idx >= self@.len() ==> r is None,
    {
        if (idx as usize) < self.0.len() {
            Some(&self.0[idx as usize])
        } else {
            None
        }
    }

    /// The seat at `idx` is occupied and in the hand.
    pub fn is_seat_in_hand(&self, idx: u8) -> (b: bool)
        ensures
            b == (idx < self@.len() && self@[idx as int].in_hand()),
    {
        (idx as usize) < self.0.len() && self.0[idx as usize].is_in_hand()
    }

    /// The largest street bet of any seat.
    pub fn current_bet(&self) -> (b: usize)
        ensures
            b == max_bet(self@),
    {
        let mut m: usize = 0;
        let mut i: usize = 0;
        while i < self.0.len()
            invariant
                i <= self@.len(),
                m == max_bet(self@.subrange(0, i as int)),
            decreases self@.len() - i,
        {
            proof {
                assert(self@.subrange(0, i + 1).drop_last() =~= self@.subrange(0, i as int));
            }
            if self.0[i].player.bet > m {
                m = self.0[i].player.bet;
            }
            i = i + 1;
        }
        proof {
            assert(self@.subrange(0, self@.len() as int) =~= self@);
        }
        m
    }

    /// What seat `player_idx` must add to match the largest bet; zero for a
    /// seat past the end of the ring.
    pub fn to_call(&self, player_idx: u8) -> (n: usize)
        ensures
            player_idx < self@.len() ==> n == max_bet(self@) - self@[player_idx as int].player.bet,
            player_idx >= self@.len() ==> n == 0,
    {
        let highest = self.current_bet();
        if (player_idx as usize) < self.0.len() {
            proof {
                lemma_max_bet(self@);
            }
            highest - self.0[player_idx as usize].player.bet
        } else {
            0
        }
    }

    /// The chips held at the occupied seats, stacks and bets together.
    pub fn total_chip_count(&self) -> (n: usize)
        requires
            holdings(self@) <= usize::MAX,
        ensures
            n == occupied_holdings(self@),
    {
        let mut n: usize = 0;
        let mut i: usize = 0;
        while i < self.0.len()
            invariant
                i <= self@.len(),
                holdings(self@) <= usize::MAX,
                n == occupied_holdings(self@.subrange(0, i as int)),
            decreases self@.len() - i,
        {
            proof {
                assert(self@.subrange(0, i + 1).drop_last() =~= self@.subrange(0, i as int));
                lemma_holdings_prefix(self@, i + 1);
                lemma_occupied_holdings_le(self@.subrange(0, i + 1));
            }
            if !self.0[i].is_empty() {
                n = n + self.0[i].player.chips + self.0[i].player.bet;
            }
            i = i + 1;
        }
        proof {
            assert(self@.subrange(0, self@.len() as int) =~= self@);
        }
        n
    }

    /// The number of occupied seats still contesting the hand.
    pub fn count_active_in_hand(&self) -> (n: usize)
        ensures
            n == count_where(self@, |x: Seat| is_active_seat(x)),
    {
        let mut n: usize = 0;
        let mut i: usize = 0;
        while i < self.0.len()
            invariant
                i <= self@.len(),
                n == count_where(self@.subrange(0, i as int), |x: Seat| is_active_seat(x)),
                n <= i,
            decreases self@.len() - i,
        {
            proof {
                assert(self@.subrange(0, i + 1).drop_last() =~= self@.subrange(0, i as int));
            }
            if !self.0[i].is_empty() && self.0[i].is_active() {
                n = n + 1;
            }
            i = i + 1;
        }
        proof {
            assert(self@.subrange(0, self@.len() as int) =~= self@);
        }
        n
    }

    /// The number of occupied seats contesting the hand and not all-in.
    pub fn count_players_with_action_to_give(&self) -> (n: usize)
        ensures
            n == count_where(self@, |x: Seat| has_action_to_give(x)),
    {
        let mut n: usize = 0;
        let mut i: usize = 0;
        while i < self.0.len()
            invariant
                i <= self@.len(),
                n == count_where(self@.subrange(0, i as int), |x: Seat| has_action_to_give(x)),
                n <= i,
            decreases self@.len() - i,
        {
            proof {
                assert(self@.subrange(0, i + 1).drop_last() =~= self@.subrange(0, i as int));
            }
            if !self.0[i].is_empty() && self.0[i].is_active() && !self.0[i].is_all_in() {
                n = n + 1;
            }
            i = i + 1;
        }
        proof {
            assert(self@.subrange(0, self@.len() as int) =~= self@);
        }
        n
    }

    /// The indices of the occupied seats still contesting the hand.
    pub fn active_in_hand(&self) -> (v: Vec<u8>)
        requires
            self@.len() <= 256,
        ensures
            forall|k: int| 0 <= k < v@.len() ==> (#[trigger] v@[k]) < self@.len() && is_active_seat(
                self@[v@[k] as int],
            ),
            forall|i: int|
                0 <= i < self@.len() && is_active_seat(#[trigger] self@[i]) ==> v@.contains(i as u8),
            forall|a: int, b: int| 0 <= a < b < v@.len() ==> v@[a] < v@[b],
    {
        let mut v: Vec<u8> = Vec::new();
        let mut i: usize = 0;
        while i < self.0.len()
            invariant
                i <= self@.len() <= 256,
                forall|k: int| 0 <= k < v@.len() ==> (#[trigger] v@[k]) < i && is_active_seat(
                    self@[v@[k] as int],
                ),
                forall|j: int| 0 <= j < i && is_active_seat(#[trigger] self@[j]) ==> v@.contains(j as u8),
                forall|a: int, b: int| 0 <= a < b < v@.len() ==> v@[a] < v@[b],
            decreases self@.len() - i,
        {
            if !self.0[i].is_empty() && self.0[i].is_active() {
                let ghost old_v = v@;
                v.push(i as u8);
                proof {
                    assert forall|j: int| 0 <= j <= i && is_active_seat(#[trigger] self@[j]) implies v@.contains(
                        j as u8,
                    ) by {
                        if j < i {
                            let k = choose|k: int| 0 <= k < old_v.len() && old_v[k] == j as u8;
                            assert(v@[k] == j as u8);
                        } else {
                            assert(v@[v@.len() - 1] == j as u8);
                        }
                    }
                }
            }
            i = i + 1;
        }
        v
    }

    /// Every street bet has gone to the pot.
    pub fn are_brought_in(&self) -> (b: bool)
        ensures
            b == forall|i: int| 0 <= i < self@.len() ==> (#[trigger] self@[i]).player.bet == 0,
    {
        let mut i: usize = 0;
        while i < self.0.len()
            invariant
                i <= self@.len(),
                forall|j: int| 0 <= j < i ==> (#[trigger] self@[j]).player.bet == 0,
            decreases self@.len() - i,
        {
            if self.0[i].player.bet != 0 {
                return false;
            }
            i = i + 1;
        }
        true
    }

    /// Every occupied seat in the hand holds all its cards.
    pub fn are_dealt(&self) -> (b: bool)
        ensures
            b == forall|i: int|
                0 <= i < self@.len() ==> (#[trigger] self@[i]).vacant() || !self@[i].player.state.is_in_hand()
                    || self@[i].cards.dealt@.len() >= self@[i].cards.slots,
    {
        let mut i: usize = 0;
        while i < self.0.len()
            invariant
                i <= self@.len(),
                forall|j: int|
                    0 <= j < i ==> (#[trigger] self@[j]).vacant() || !self@[j].player.state.is_in_hand()
                        || self@[j].cards.dealt@.len() >= self@[j].cards.slots,
            decreases self@.len() - i,
        {
            let s = &self.0[i];
            if !(s.is_empty() || !s.player.is_in_hand() || s.cards.is_dealt()) {
                return false;
            }
            i = i + 1;
        }
        true
    }

    /// Every occupied seat in the hand is yet to act.
    pub fn are_ready_to_act(&self) -> (b: bool)
        ensures
            b == forall|i: int|
                0 <= i < self@.len() ==> (#[trigger] self@[i]).vacant() || !self@[i].player.state.is_in_hand()
                    || self@[i].player.state is YetToAct,
    {
        let mut i: usize = 0;
        while i < self.0.len()
            invariant
                i <= self@.len(),
                forall|j: int|
                    0 <= j < i ==> (#[trigger] self@[j]).vacant() || !self@[j].player.state.is_in_hand()
                        || self@[j].player.state is YetToAct,
            decreases self@.len() - i,
        {
            let s = &self.0[i];
            if !(s.is_empty() || !s.player.is_in_hand() || s.is_yet_to_act()) {
                return false;
            }
            i = i + 1;
        }
        true
    }

    /// Every occupied seat is clear for a new hand.
    pub fn are_clear(&self) -> (b: bool)
        ensures
            b == forall|i: int|
                0 <= i < self@.len() ==> (#[trigger] self@[i]).vacant() || (self@[i].player.state is YetToAct
                    && self@[i].player.bet == 0 && self@[i].player.chips_in_play == 0),
    {
        let mut i: usize = 0;
        while i < self.0.len()
            invariant
                i <= self@.len(),
                forall|j: int|
                    0 <= j < i ==> (#[trigger] self@[j]).vacant() || (self@[j].player.state is YetToAct
                        && self@[j].player.bet == 0 && self@[j].player.chips_in_play == 0),
            decreases self@.len() - i,
        {
            let s = &self.0[i];
            if !(s.is_empty() || s.is_clear()) {
                return false;
            }
            i = i + 1;
        }
        true
    }

    /// No more betting is needed this round: at most one player contests the
    /// hand, or nobody has action to give, or every occupied seat has acted
    /// and every active player not all-in has matched the largest bet.
    pub fn is_betting_complete(&self) -> (b: bool)
        ensures
            b == betting_complete(self@),
    {
        if self.count_active_in_hand() <= 1 {
            return true;
        }
        if self.count_players_with_action_to_give() < 1 {
            return true;
        }
        let current_bet = self.current_bet();
        let mut i: usize = 0;
        while i < self.0.len()
            invariant
                i <= self@.len(),
                current_bet == max_bet(self@),
                count_where(self@, |x: Seat| is_active_seat(x)) > 1,
                count_where(self@, |x: Seat| has_action_to_give(x)) >= 1,
                forall|j: int|
                    0 <= j < i && !(#[trigger] self@[j]).vacant() ==> !(self@[j].player.state is YetToAct
                        || self@[j].player.state is Blind) && (self@[j].player.all_in()
                        || !self@[j].player.state.is_active() || self@[j].player.bet == current_bet),
            decreases self@.len() - i,
        {
            let seat = &self.0[i];
            if !seat.is_empty() {
                if seat.is_yet_to_act_or_blind() {
                    proof {
                        assert(!self@[i as int].vacant());
                    }
                    return false;
                }
                if !seat.is_all_in() && seat.player.is_active() && seat.player.bet != current_bet {
                    proof {
                        assert(!self@[i as int].vacant());
                    }
                    return false;
                }
            }
            i = i + 1;
        }
        true
    }

    /// Every occupied seat in the hand has acted this street.
    pub fn has_everyone_acted(&self) -> (b: bool)
        ensures
            b == forall|i: int|
                0 <= i < self@.len() ==> !((#[trigger] self@[i]).in_hand() && self@[i].player.state is YetToAct),
    {
        let mut i: usize = 0;
        while i < self.0.len()
            invariant
                i <= self@.len(),
                forall|j: int|
                    0 <= j < i ==> !((#[trigger] self@[j]).in_hand() && self@[j].player.state is YetToAct),
            decreases self@.len() - i,
        {
            if self.0[i].is_in_hand() && self.0[i].is_yet_to_act() {
                return false;
            }
            i = i + 1;
        }
        true
    }

    /// Every occupied seat in the hand has bet or checked: none is yet to act
    /// or sitting on a blind.
    pub fn has_everyone_bet(&self) -> (b: bool)
        ensures
            b == forall|i: int|
                0 <= i < self@.len() ==> !((#[trigger] self@[i]).in_hand() && (self@[i].player.state is YetToAct
                    || self@[i].player.state is Blind)),
    {
        let mut i: usize = 0;
        while i < self.0.len()
            invariant
                i <= self@.len(),
                forall|j: int|
                    0 <= j < i ==> !((#[trigger] self@[j]).in_hand() && (self@[j].player.state is YetToAct
                        || self@[j].player.state is Blind)),
            decreases self@.len() - i,
        {
            if self.0[i].is_in_hand() && self.0[i].is_yet_to_act_or_blind() {
                return false;
            }
            i = i + 1;
        }
        true
    }
}

/// The street bets of a prefix never exceed those of the whole.
pub proof fn lemma_holdings_prefix(s: Seq<Seat>, i: int)
    requires
        0 <= i <= s.len(),
    ensures
        holdings(s.subrange(0, i)) <= holdings(s),
    decreases s.len() - i,
{
    if i < s.len() {
        lemma_holdings_prefix(s, i + 1);
        assert(s.subrange(0, i + 1).drop_last() =~= s.subrange(0, i));
    } else {
        assert(s.subrange(0, i) =~= s);
    }
}

/// A seat whose player can still be handed the action: occupied, in the
/// hand, and not all-in.
pub open spec fn eligible_to_act(x: Seat) -> bool {
    !x.vacant() && x.player.state.is_in_hand() && !x.player.all_in()
}

/// A seat that owes the table an action: an eligible seat sitting on a
/// blind or yet to act, or, once everyone has bet, short of the largest bet
/// (a check with no bet in front owes nothing).
pub open spec fn owes_action(x: Seat, current_bet: nat, everyone_has_bet: bool) -> bool {
    &&& eligible_to_act(x)
    &&& (x.player.state is Blind || x.player.state is YetToAct || (!(x.player.state is Check
        && current_bet == 0) && everyone_has_bet && x.player.bet < current_bet))
}

/// The seat `k` places clockwise from `start` in a ring of `n` seats.
pub open spec fn ring(n: nat, start: nat, k: nat) -> int {
    ((start + k) % n) as int
}

/// The first seat clockwise from `start`, at most `n - k` places after the
/// `k`-th, that satisfies `p`.
pub open spec fn scan(s: Seq<Seat>, start: nat, p: spec_fn(Seat) -> bool, k: nat) -> Option<nat>
    decreases s.len() - k,
{
    if k >= s.len() {
        None
    } else if p(s[ring(s.len(), start, k)]) {
        Some(ring(s.len(), start, k) as nat)
    } else {
        scan(s, start, p, k + 1)
    }
}

/// Whether a seat sets the level of the current bet: it holds that bet in an
/// aggressive state (blind, bet, raise, re-raise, all-in).
pub open spec fn sets_level(x: Seat, current_bet: nat) -> bool {
    !x.vacant() && x.player.bet == current_bet && (x.player.state is Blind || x.player.state is Bet
        || x.player.state is Raise || x.player.state is ReRaise || x.player.state is AllIn)
}

/// The first seat that sets the level of the current bet; `None` when no
/// chips are in front on this street.
pub open spec fn aggressor(s: Seq<Seat>) -> Option<nat> {
    if max_bet(s) == 0 {
        None
    } else {
        scan(s, 0, |x: Seat| sets_level(x, max_bet(s)), 0)
    }
}

/// Where the search for the next actor starts: after the last aggressor,
/// or under the gun when nobody has bet this street.
pub open spec fn action_start(s: Seq<Seat>, utg: nat) -> nat {
    match aggressor(s) {
        Some(a) => (a + 1) % s.len(),
        None => utg,
    }
}

/// Whether every seat in the hand has bet or checked this street.
pub open spec fn everyone_bet(s: Seq<Seat>) -> bool {
    forall|i: int|
        0 <= i < s.len() ==> !((#[trigger] s[i]).in_hand() && (s[i].player.state is YetToAct
            || s[i].player.state is Blind))
}

/// The seat that acts next, as `next_to_act` decides it: the first seat
/// clockwise from the start that owes an action, else the first that can
/// still act at all.
pub open spec fn next_actor(s: Seq<Seat>, utg: nat) -> Option<nat> {
    let start = action_start(s, utg);
    let owes = scan(s, start, |x: Seat| owes_action(x, max_bet(s), everyone_bet(s)), 0);
    if owes is Some {
        owes
    } else {
        scan(s, start, |x: Seat| eligible_to_act(x), 0)
    }
}

/// A seat scanned over and failing `p` does not change where the scan ends.
pub proof fn lemma_scan_skip(s: Seq<Seat>, start: nat, p: spec_fn(Seat) -> bool, k: nat)
    requires
        k < s.len(),
        !p(s[ring(s.len(), start, k)]),
    ensures
        scan(s, start, p, k) == scan(s, start, p, k + 1),
{
}

/// A scan's result lies in the ring.
pub proof fn lemma_scan_bound(s: Seq<Seat>, start: nat, p: spec_fn(Seat) -> bool, k: nat)
    requires
        s.len() > 0,
    ensures
        scan(s, start, p, k) matches Some(i) ==> i < s.len() && p(s[i as int]),
    decreases s.len() - k,
{
    if k < s.len() && !p(s[ring(s.len(), start, k)]) {
        lemma_scan_bound(s, start, p, k + 1);
    }
}

/// A seat after bringing in its street bet.
pub open spec fn brought_in(x: Seat, frozen: bool) -> Seat {
    Seat {
        player: Player {
            bet: 0,
            state: if !frozen && x.player.state.is_active() && x.player.chips > 0 {
                PlayerState::YetToAct
            } else {
                x.player.state
            },
            ..x.player
        },
        bet_level_when_last_acted: 0,
        ..x
    }
}

/// A seat after closing out the hand.
pub open spec fn closed_out(x: Seat) -> Seat {
    if x.player.bet > 0 {
        Seat {
            player: Player {
                bet: 0,
                state: PlayerState::Showdown(x.player.chips_in_play),
                ..x.player
            },
            ..x
        }
    } else {
        x
    }
}

/// Seat `idx` now holds `after` as its player and is otherwise unchanged.
pub open spec fn player_replaced(before: Seq<Seat>, after: Seq<Seat>, idx: int) -> bool {
    &&& 0 <= idx < before.len()
    &&& after == before.update(idx, Seat { player: after[idx].player, ..before[idx] })
}

/// Whether street bets may be brought in without freezing the states:
/// more than one player contests the hand and more than one can still bet.
pub open spec fn freezes(s: Seq<Seat>) -> bool {
    count_where(s, |x: Seat| is_active_seat(x)) <= 1 || count_where(
        s,
        |x: Seat| has_action_to_give(x),
    ) <= 1
}

/// Bringing in every street bet leaves the players holding their stacks.
pub proof fn lemma_holdings_brought_in(s: Seq<Seat>, frozen: bool)
    ensures
        holdings(s.map_values(|x: Seat| brought_in(x, frozen))) + bets(s) == holdings(s),
    decreases s.len(),
{
    if s.len() > 0 {
        lemma_holdings_brought_in(s.drop_last(), frozen);
        assert(s.map_values(|x: Seat| brought_in(x, frozen)).drop_last() =~= s.drop_last().map_values(
            |x: Seat| brought_in(x, frozen),
        ));
    }
}

impl Seats {
    /// The first seat that set the level of the current bet; `None` when no
    /// chips are in front on this street.
    pub fn last_aggressor(&self) -> (r: Option<u8>)
        requires
            self@.len() <= 256,
        ensures
            r == (match aggressor(self@) {
                Some(i) => Some(i as u8),
                None => None,
            }),
    {
        let current_bet = self.current_bet();
        if current_bet == 0 {
            return None;
        }
        let ghost p = |x: Seat| sets_level(x, max_bet(self@));
        let mut idx: usize = 0;
        while idx < self.0.len()
            invariant
                idx <= self@.len() <= 256,
                current_bet == max_bet(self@),
                current_bet > 0,
                p == (|x: Seat| sets_level(x, max_bet(self@))),
                scan(self@, 0, p, 0) == scan(self@, 0, p, idx as nat),
            decreases self@.len() - idx,
        {
            let seat = &self.0[idx];
            proof {
                vstd::arithmetic::div_mod::lemma_small_mod(idx as nat, self@.len());
                assert(ring(self@.len(), 0, idx as nat) == idx);
            }
            if !seat.is_empty() && seat.player.bet == current_bet && matches!(
                seat.player.state,
                PlayerState::Blind(_) | PlayerState::Bet(_) | PlayerState::Raise(_)
                    | PlayerState::ReRaise(_) | PlayerState::AllIn(_)
            ) {
                return Some(idx as u8);
            }
            proof {
                lemma_scan_skip(self@, 0, p, idx as nat);
            }
            idx = idx + 1;
        }
        None
    }

    /// The seat that acts next: the first seat clockwise from the last
    /// aggressor (from `utg` when nobody has bet this street) that owes an
    /// action, else the first that can still act. Refused with
    /// `InvalidSeatNumber` when no seat can act.
    pub fn next_to_act(&self, utg: u8) -> (r: Result<u8, PKError>)
        requires
            self@.len() <= 256,
        ensures
            self@.len() == 0 ==> r == Err::<u8, PKError>(PKError::InvalidSeatNumber),
            self@.len() > 0 ==> r == (match next_actor(self@, utg as nat) {
                Some(i) => Ok::<u8, PKError>(i as u8),
                None => Err::<u8, PKError>(PKError::InvalidSeatNumber),
            }),
    {
        let size = self.0.len();
        if size == 0 {
            return Err(PKError::InvalidSeatNumber);
        }
        let current_bet = self.current_bet();
        let everyone_has_bet = self.has_everyone_bet();
        let start: usize = match self.last_aggressor() {
            Some(aggressor) => (aggressor as usize + 1) % size,
            None => utg as usize,
        };
        proof {
            lemma_scan_bound(self@, 0, |x: Seat| sets_level(x, max_bet(self@)), 0);
            assert(start == action_start(self@, utg as nat));
            assert(everyone_has_bet == everyone_bet(self@));
            assert(start < 512);
        }
        let ghost owes = |x: Seat| owes_action(x, max_bet(self@), everyone_bet(self@));
        let ghost elig = |x: Seat| eligible_to_act(x);
        let mut step: usize = 0;
        while step < size
            invariant
                size == self@.len() <= 256,
                size > 0,
                step <= size,
                current_bet == max_bet(self@),
                everyone_has_bet == everyone_bet(self@),
                start < 512,
                start == action_start(self@, utg as nat),
                owes == (|x: Seat| owes_action(x, max_bet(self@), everyone_bet(self@))),
                scan(self@, start as nat, owes, 0) == scan(self@, start as nat, owes, step as nat),
            decreases size - step,
        {
            let idx = (start + step) % size;
            let seat = &self.0[idx];
            proof {
                assert(idx == ring(self@.len(), start as nat, step as nat));
            }
            if !(seat.is_empty() || !seat.is_in_hand() || seat.is_all_in()) {
                if seat.player.state.is_blind() || seat.is_yet_to_act() {
                    proof {
                        assert(owes(self@[idx as int]));
                    }
                    return Ok(idx as u8);
                }
                if !(seat.player.state.is_check() && current_bet == 0) {
                    if seat.player.state.is_in_hand() && everyone_has_bet && seat.player.bet
                        < current_bet {
                        proof {
                            assert(owes(self@[idx as int]));
                        }
                        return Ok(idx as u8);
                    }
                }
            }
            proof {
                lemma_scan_skip(self@, start as nat, owes, step as nat);
            }
            step = step + 1;
        }
        let mut step: usize = 0;
        while step < size
            invariant
                size == self@.len() <= 256,
                size > 0,
                step <= size,
                start < 512,
                start == action_start(self@, utg as nat),
                owes == (|x: Seat| owes_action(x, max_bet(self@), everyone_bet(self@))),
                elig == (|x: Seat| eligible_to_act(x)),
                scan(self@, start as nat, owes, 0) is None,
                scan(self@, start as nat, elig, 0) == scan(self@, start as nat, elig, step as nat),
            decreases size - step,
        {
            let idx = (start + step) % size;
            let seat = &self.0[idx];
            proof {
                assert(idx == ring(self@.len(), start as nat, step as nat));
            }
            if !(seat.is_empty() || !seat.is_in_hand() || seat.is_all_in()) {
                proof {
                    assert(elig(self@[idx as int]));
                }
                return Ok(idx as u8);
            }
            proof {
                lemma_scan_skip(self@, start as nat, elig, step as nat);
            }
            step = step + 1;
        }
        Err(PKError::InvalidSeatNumber)
    }

    /// Ends the street: collects every street bet and returns the total.
    /// Active players with chips wait to act on the next street, unless at
    /// most one player contests the hand or at most one can still bet, when
    /// every state is left as it is. Refused with `ActionIsntFinished`,
    /// nothing changed, while betting is not complete.
    pub fn bring_it_in(&mut self) -> (r: Result<usize, PKError>)
        requires
            holdings(old(self)@) <= usize::MAX,
        ensures
            !betting_complete(old(self)@) ==> r == Err::<usize, PKError>(PKError::ActionIsntFinished)
                && final(self)@ == old(self)@,
            betting_complete(old(self)@) ==> r == Ok::<usize, PKError>(bets(old(self)@) as usize)
                && final(self)@ == old(self)@.map_values(|x: Seat| brought_in(x, freezes(old(self)@))),
    {
        if !self.is_betting_complete() {
            return Err(PKError::ActionIsntFinished);
        }
        let use_frozen = self.count_active_in_hand() <= 1 || self.count_players_with_action_to_give() <= 1;
        let ghost before = self@;
        proof {
            lemma_bets_le_holdings(before);
        }
        let mut collected: usize = 0;
        let mut i: usize = 0;
        while i < self.0.len()
            invariant
                i <= self@.len() == before.len(),
                use_frozen == freezes(before),
                bets(before) <= usize::MAX,
                collected == bets(before.subrange(0, i as int)),
                forall|j: int| 0 <= j < i ==> #[trigger] self@[j] == brought_in(before[j], use_frozen),
                forall|j: int| i <= j < self@.len() ==> #[trigger] self@[j] == before[j],
            decreases self@.len() - i,
        {
            proof {
                assert(before.subrange(0, i + 1).drop_last() =~= before.subrange(0, i as int));
                lemma_bets_prefix(before, i + 1);
            }
            let seat = &mut self.0[i];
            let chips = if use_frozen {
                seat.player.act_bring_it_in_frozen()
            } else {
                seat.player.act_bring_it_in()
            };
            seat.bet_level_when_last_acted = 0;
            collected = collected + chips;
            i = i + 1;
        }
        proof {
            assert(before.subrange(0, before.len() as int) =~= before);
            assert(self@ =~= before.map_values(|x: Seat| brought_in(x, use_frozen)));
        }
        Ok(collected)
    }
}

/// The street bets of a prefix never exceed those of the whole.
pub proof fn lemma_bets_prefix(s: Seq<Seat>, i: int)
    requires
        0 <= i <= s.len(),
    ensures
        bets(s.subrange(0, i)) <= bets(s),
    decreases s.len() - i,
{
    if i < s.len() {
        lemma_bets_prefix(s, i + 1);
        assert(s.subrange(0, i + 1).drop_last() =~= s.subrange(0, i));
    } else {
        assert(s.subrange(0, i) =~= s);
    }
}

/// The seat made ready for a new hand: an occupied seat whose player is
/// neither out nor tapped out is yet to act.
pub open spec fn made_eligible(x: Seat) -> Seat {
    if x.vacant() || x.player.state is Out || (x.player.chips == 0 && x.player.bet == 0) {
        x
    } else {
        Seat { player: Player { state: PlayerState::YetToAct, ..x.player }, ..x }
    }
}

/// The seat reset between hands: an empty seat is out, an occupied one has
/// nothing committed and is yet to act.
pub open spec fn state_reset(x: Seat) -> Seat {
    if x.vacant() {
        Seat { player: Player { state: PlayerState::Out, ..x.player }, ..x }
    } else {
        Seat {
            player: Player { chips_in_play: 0, state: PlayerState::YetToAct, ..x.player },
            ..x
        }
    }
}

/// The seat reset between streets: a seat in the hand is yet to act.
pub open spec fn street_reset(x: Seat) -> Seat {
    if x.in_hand() {
        Seat { player: Player { state: PlayerState::YetToAct, ..x.player }, ..x }
    } else {
        x
    }
}

/// The seat at showdown: an active seat is marked with the pot it contests.
pub open spec fn at_showdown(x: Seat, pot_size: usize) -> Seat {
    if x.active() {
        Seat { player: Player { state: PlayerState::Showdown(pot_size), ..x.player }, ..x }
    } else {
        x
    }
}

impl Seats {
    /// Bets `amount` for seat `idx`, as `Player::act_bet` does. Refused with
    /// `InvalidSeatNumber` past the end of the ring.
    pub fn act_bet(&mut self, idx: u8, amount: usize) -> (r: Result<usize, PKError>)
        requires
            players_wf(old(self)@),
        ensures
            players_wf(final(self)@),
            idx >= old(self)@.len() ==> r == Err::<usize, PKError>(PKError::InvalidSeatNumber)
                && final(self)@ == old(self)@,
            idx < old(self)@.len() ==> player_replaced(old(self)@, final(self)@, idx as int)
                && Player::wager_outcome(
                old(self)@[idx as int].player,
                PlayerState::Bet(amount),
                final(self)@[idx as int].player,
                r,
            ),
    {
        if (idx as usize) >= self.0.len() {
            return Err(PKError::InvalidSeatNumber);
        }
        let ghost before = self@;
        let seat = &mut self.0[idx as usize];
        let r = seat.player.act_bet(amount);
        proof {
            assert(self@ =~= before.update(idx as int, Seat { player: self@[idx as int].player, ..before[idx as int] }));
        }
        r
    }

    /// Raises to `amount` for seat `idx`, as `Player::act_raise` does.
    /// Refused with `InvalidSeatNumber` past the end of the ring.
    pub fn act_raise(&mut self, idx: u8, amount: usize) -> (r: Result<usize, PKError>)
        requires
            players_wf(old(self)@),
        ensures
            players_wf(final(self)@),
            idx >= old(self)@.len() ==> r == Err::<usize, PKError>(PKError::InvalidSeatNumber)
                && final(self)@ == old(self)@,
            idx < old(self)@.len() ==> player_replaced(old(self)@, final(self)@, idx as int)
                && Player::wager_outcome(
                old(self)@[idx as int].player,
                PlayerState::Raise(amount),
                final(self)@[idx as int].player,
                r,
            ),
    {
        if (idx as usize) >= self.0.len() {
            return Err(PKError::InvalidSeatNumber);
        }
        let ghost before = self@;
        let seat = &mut self.0[idx as usize];
        let r = seat.player.act_raise(amount);
        proof {
            assert(self@ =~= before.update(idx as int, Seat { player: self@[idx as int].player, ..before[idx as int] }));
        }
        r
    }

    /// Calls for seat `idx`: with no bet at the table a check, answering 0;
    /// otherwise a call up to the largest bet, answering that bet. Refused
    /// with `InvalidSeatNumber` past the end of the ring, or with the
    /// player's refusal.
    pub fn act_call(&mut self, idx: u8) -> (r: Result<usize, PKError>)
        requires
            players_wf(old(self)@),
        ensures
            players_wf(final(self)@),
            holdings(final(self)@) == holdings(old(self)@),
            idx >= old(self)@.len() ==> r == Err::<usize, PKError>(PKError::InvalidSeatNumber)
                && final(self)@ == old(self)@,
            idx < old(self)@.len() ==> player_replaced(old(self)@, final(self)@, idx as int),
            idx < old(self)@.len() && max_bet(old(self)@) > 0 ==> (Player::wager_outcome(
                old(self)@[idx as int].player,
                PlayerState::Call(max_bet(old(self)@) as usize),
                final(self)@[idx as int].player,
                r,
            ) || r == Ok::<usize, PKError>(max_bet(old(self)@) as usize)) && (r is Ok ==> r
                == Ok::<usize, PKError>(max_bet(old(self)@) as usize)),
    {
        let to_call = self.current_bet();
        if (idx as usize) >= self.0.len() {
            return Err(PKError::InvalidSeatNumber);
        }
        let ghost before = self@;
        let seat = &mut self.0[idx as usize];
        let r = if to_call == 0 {
            match seat.player.act_check() {
                Ok(()) => Ok(0),
                Err(e) => Err(e),
            }
        } else {
            match seat.player.act_call(to_call) {
                Ok(_) => Ok(to_call),
                Err(e) => Err(e),
            }
        };
        proof {
            assert(self@ =~= before.update(idx as int, Seat { player: self@[idx as int].player, ..before[idx as int] }));
            lemma_holdings_update(before, idx as int, self@[idx as int]);
            assert(players_wf(self@)) by {
                assert forall|j: int| 0 <= j < self@.len() implies (#[trigger] self@[j]).player.wf() by {
                    if j != idx {
                        assert(self@[j] == before[j]);
                    }
                }
            }
        }
        r
    }

    /// Checks for seat `idx` and answers the stack left. Refused with
    /// `InvalidSeatNumber` past the end of the ring, with
    /// `InvalidTableAction` when the seat is short of the largest bet, or
    /// with the player's refusal.
    pub fn act_check(&mut self, idx: u8) -> (r: Result<usize, PKError>)
        ensures
            idx >= old(self)@.len() ==> r == Err::<usize, PKError>(PKError::InvalidSeatNumber)
                && final(self)@ == old(self)@,
            idx < old(self)@.len() && old(self)@[idx as int].player.bet < max_bet(old(self)@) ==> r
                == Err::<usize, PKError>(PKError::InvalidTableAction) && final(self)@ == old(self)@,
            idx < old(self)@.len() && old(self)@[idx as int].player.bet >= max_bet(old(self)@) ==> {
                let p = old(self)@[idx as int].player;
                if p.state.is_active() && p.state.permits(PlayerState::Check) {
                    r == Ok::<usize, PKError>(p.chips) && final(self)@ == old(self)@.update(
                        idx as int,
                        Seat { player: Player { state: PlayerState::Check, ..p }, ..old(self)@[idx as int] },
                    )
                } else {
                    r == Err::<usize, PKError>(PKError::InvalidTableAction) && final(self)@
                        == old(self)@
                }
            },
    {
        let current_bet = self.current_bet();
        if (idx as usize) >= self.0.len() {
            return Err(PKError::InvalidSeatNumber);
        }
        let ghost before = self@;
        if self.0[idx as usize].player.bet < current_bet {
            return Err(PKError::InvalidTableAction);
        }
        let seat = &mut self.0[idx as usize];
        let r = match seat.player.act_check() {
            Ok(()) => Ok(seat.player.chips),
            Err(e) => Err(e),
        };
        proof {
            assert(self@ =~= before.update(idx as int, Seat { player: self@[idx as int].player, ..before[idx as int] }));
        }
        r
    }

    /// Folds for seat `idx`, answering the chips it had in front. Refused
    /// with `InvalidSeatNumber` past the end of the ring, or with
    /// `InvalidTableAction` for a player not active.
    pub fn act_fold(&mut self, idx: u8) -> (r: Result<usize, PKError>)
        ensures
            idx >= old(self)@.len() ==> r == Err::<usize, PKError>(PKError::InvalidSeatNumber)
                && final(self)@ == old(self)@,
            idx < old(self)@.len() ==> {
                let p = old(self)@[idx as int].player;
                if p.state.is_active() {
                    r == Ok::<usize, PKError>(p.bet) && final(self)@ == old(self)@.update(
                        idx as int,
                        Seat { player: Player { state: PlayerState::Fold, bet: 0, ..p }, ..old(self)@[idx as int] },
                    )
                } else {
                    r == Err::<usize, PKError>(PKError::InvalidTableAction) && final(self)@
                        == old(self)@
                }
            },
    {
        if (idx as usize) >= self.0.len() {
            return Err(PKError::InvalidSeatNumber);
        }
        let ghost before = self@;
        let seat = &mut self.0[idx as usize];
        let r = seat.player.act_fold();
        proof {
            assert(self@ =~= before.update(idx as int, Seat { player: self@[idx as int].player, ..before[idx as int] }));
        }
        r
    }

    /// Puts every chip of seat `idx` in, as `Player::act_all_in` does.
    /// Refused with `InvalidSeatNumber` past the end of the ring.
    pub fn act_all_in(&mut self, idx: u8) -> (r: Result<usize, PKError>)
        requires
            players_wf(old(self)@),
        ensures
            players_wf(final(self)@),
            holdings(final(self)@) == holdings(old(self)@),
            idx >= old(self)@.len() ==> r == Err::<usize, PKError>(PKError::InvalidSeatNumber)
                && final(self)@ == old(self)@,
            idx < old(self)@.len() ==> player_replaced(old(self)@, final(self)@, idx as int) && {
                let p = old(self)@[idx as int].player;
                let q = final(self)@[idx as int].player;
                &&& p.all_in() ==> r == Err::<usize, PKError>(PKError::InvalidTableAction) && q == p
                &&& r is Ok ==> r == Ok::<usize, PKError>((p.chips + p.bet) as usize) && q == p.all_in_spec()
                &&& !p.all_in() && p.wager_error(PlayerState::AllIn((p.chips + p.bet) as usize)) is None
                    ==> r is Ok
                &&& !p.all_in() ==> (p.wager_error(PlayerState::AllIn((p.chips + p.bet) as usize))
                    matches Some(e) ==> r == Err::<usize, PKError>(e) && q == p)
            },
    {
        if (idx as usize) >= self.0.len() {
            return Err(PKError::InvalidSeatNumber);
        }
        let ghost before = self@;
        let seat = &mut self.0[idx as usize];
        let r = seat.player.act_all_in();
        proof {
            assert(self@ =~= before.update(idx as int, Seat { player: self@[idx as int].player, ..before[idx as int] }));
            lemma_holdings_update(before, idx as int, self@[idx as int]);
            assert forall|j: int| 0 <= j < self@.len() implies (#[trigger] self@[j]).player.wf() by {
                if j != idx {
                    assert(self@[j] == before[j]);
                }
            }
        }
        r
    }

    /// Posts a forced bet of `amount` for seat `idx`, or everything the
    /// player has when that is less, as `Player::act_blind_or_all_in` does.
    /// Refused with `InvalidSeatNumber` past the end of the ring.
    pub fn act_forced_bet(&mut self, idx: u8, amount: usize) -> (r: Result<usize, PKError>)
        requires
            players_wf(old(self)@),
        ensures
            players_wf(final(self)@),
            holdings(final(self)@) == holdings(old(self)@),
            idx >= old(self)@.len() ==> r == Err::<usize, PKError>(PKError::InvalidSeatNumber)
                && final(self)@ == old(self)@,
            idx < old(self)@.len() ==> match old(self)@[idx as int].player.blind_step(amount) {
                Ok((q, a)) => r == Ok::<usize, PKError>(a) && final(self)@ == old(self)@.update(
                    idx as int,
                    Seat { player: q, ..old(self)@[idx as int] },
                ),
                Err(e) => r == Err::<usize, PKError>(e) && final(self)@ == old(self)@,
            },
    {
        if (idx as usize) >= self.0.len() {
            return Err(PKError::InvalidSeatNumber);
        }
        let ghost before = self@;
        let seat = &mut self.0[idx as usize];
        let r = seat.player.act_blind_or_all_in(amount);
        proof {
            assert(self@ =~= before.update(idx as int, Seat { player: self@[idx as int].player, ..before[idx as int] }));
            lemma_holdings_update(before, idx as int, self@[idx as int]);
            assert forall|j: int| 0 <= j < self@.len() implies (#[trigger] self@[j]).player.wf() by {
                if j != idx {
                    assert(self@[j] == before[j]);
                }
            }
        }
        r
    }

    /// Posts a dead ante of up to `ante` for seat `idx`, as
    /// `Player::post_dead` does, and answers what was posted; nothing for a
    /// seat past the end of the ring.
    pub fn post_dead_ante(&mut self, idx: u8, ante: usize) -> (actual: usize)
        requires
            players_wf(old(self)@),
        ensures
            players_wf(final(self)@),
            holdings(final(self)@) + actual == holdings(old(self)@),
            idx >= old(self)@.len() ==> actual == 0 && final(self)@ == old(self)@,
            idx < old(self)@.len() ==> actual == old(self)@[idx as int].player.dead_posted(ante).1
                && final(self)@ == old(self)@.update(
                idx as int,
                Seat { player: old(self)@[idx as int].player.dead_posted(ante).0, ..old(self)@[idx as int] },
            ),
    {
        if (idx as usize) >= self.0.len() {
            return 0;
        }
        let ghost before = self@;
        let seat = &mut self.0[idx as usize];
        let actual = seat.player.post_dead(ante);
        proof {
            assert(self@ =~= before.update(idx as int, Seat { player: self@[idx as int].player, ..before[idx as int] }));
            lemma_holdings_update(before, idx as int, self@[idx as int]);
            assert forall|j: int| 0 <= j < self@.len() implies (#[trigger] self@[j]).player.wf() by {
                if j != idx {
                    assert(self@[j] == before[j]);
                }
            }
        }
        actual
    }

    /// Makes every occupied seat whose player is neither out nor tapped out
    /// yet to act.
    pub fn set_eligible_to_yet_to_act(&mut self)
        ensures
            final(self)@ == old(self)@.map_values(|x: Seat| made_eligible(x)),
    {
        let ghost before = self@;
        let mut i: usize = 0;
        while i < self.0.len()
            invariant
                i <= self@.len() == before.len(),
                forall|j: int| 0 <= j < i ==> #[trigger] self@[j] == made_eligible(before[j]),
                forall|j: int| i <= j < self@.len() ==> #[trigger] self@[j] == before[j],
            decreases self@.len() - i,
        {
            let seat = &mut self.0[i];
            if !(seat.is_empty() || seat.player.is_out() || seat.player.is_tapped_out()) {
                seat.player.state = PlayerState::YetToAct;
            }
            i = i + 1;
        }
        proof {
            assert(self@ =~= before.map_values(|x: Seat| made_eligible(x)));
        }
    }

    /// Resets every seat for a new hand: empty seats are out, occupied seats
    /// have nothing committed and are yet to act.
    pub fn reset_state(&mut self)
        ensures
            final(self)@ == old(self)@.map_values(|x: Seat| state_reset(x)),
    {
        let ghost before = self@;
        let mut i: usize = 0;
        while i < self.0.len()
            invariant
                i <= self@.len() == before.len(),
                forall|j: int| 0 <= j < i ==> #[trigger] self@[j] == state_reset(before[j]),
                forall|j: int| i <= j < self@.len() ==> #[trigger] self@[j] == before[j],
            decreases self@.len() - i,
        {
            let seat = &mut self.0[i];
            if seat.is_empty() {
                seat.player.state = PlayerState::Out;
            } else {
                seat.player.reset();
            }
            i = i + 1;
        }
        proof {
            assert(self@ =~= before.map_values(|x: Seat| state_reset(x)));
        }
    }

    /// Makes every seat in the hand yet to act, for a new street.
    pub fn reset_state_in_hand(&mut self)
        ensures
            final(self)@ == old(self)@.map_values(|x: Seat| street_reset(x)),
    {
        let ghost before = self@;
        let mut i: usize = 0;
        while i < self.0.len()
            invariant
                i <= self@.len() == before.len(),
                forall|j: int| 0 <= j < i ==> #[trigger] self@[j] == street_reset(before[j]),
                forall|j: int| i <= j < self@.len() ==> #[trigger] self@[j] == before[j],
            decreases self@.len() - i,
        {
            let seat = &mut self.0[i];
            if seat.is_in_hand() {
                seat.player.state = PlayerState::YetToAct;
            }
            i = i + 1;
        }
        proof {
            assert(self@ =~= before.map_values(|x: Seat| street_reset(x)));
        }
    }

    /// Marks every active seat as at showdown for a pot of `pot_size`.
    pub fn showdown(&mut self, pot_size: usize)
        ensures
            final(self)@ == old(self)@.map_values(|x: Seat| at_showdown(x, pot_size)),
    {
        let ghost before = self@;
        let mut i: usize = 0;
        while i < self.0.len()
            invariant
                i <= self@.len() == before.len(),
                forall|j: int| 0 <= j < i ==> #[trigger] self@[j] == at_showdown(before[j], pot_size),
                forall|j: int| i <= j < self@.len() ==> #[trigger] self@[j] == before[j],
            decreases self@.len() - i,
        {
            let seat = &mut self.0[i];
            if seat.is_active() {
                seat.player.state = PlayerState::Showdown(pot_size);
            }
            i = i + 1;
        }
        proof {
            assert(self@ =~= before.map_values(|x: Seat| at_showdown(x, pot_size)));
        }
    }

    /// Closes the hand: every seat with a bet in front hands it in and is
    /// marked at showdown with what it committed; answers the chips handed
    /// in. Refused with `ActionIsntFinished`, nothing changed, while betting
    /// is not complete; refused with `InvalidTableAction` when a seat with a
    /// bet in front is not active.
    pub fn close_it_out(&mut self) -> (r: Result<usize, PKError>)
        requires
            holdings(old(self)@) <= usize::MAX,
        ensures
            !betting_complete(old(self)@) ==> r == Err::<usize, PKError>(PKError::ActionIsntFinished)
                && final(self)@ == old(self)@,
            betting_complete(old(self)@) && (forall|j: int|
                0 <= j < old(self)@.len() && (#[trigger] old(self)@[j]).player.bet > 0
                    ==> old(self)@[j].player.state.is_active()) ==> r == Ok::<usize, PKError>(
                bets(old(self)@) as usize,
            ) && final(self)@ == old(self)@.map_values(|x: Seat| closed_out(x)),
            r is Err ==> r == Err::<usize, PKError>(PKError::ActionIsntFinished) || r == Err::<
                usize,
                PKError,
            >(PKError::InvalidTableAction),
            betting_complete(old(self)@) && (exists|j: int|
                0 <= j < old(self)@.len() && (#[trigger] old(self)@[j]).player.bet > 0
                    && !old(self)@[j].player.state.is_active()) ==> r == Err::<usize, PKError>(
                PKError::InvalidTableAction,
            ),
            final(self)@.len() == old(self)@.len(),
            forall|j: int|
                0 <= j < old(self)@.len() ==> #[trigger] final(self)@[j] == closed_out(old(self)@[j])
                    || final(self)@[j] == old(self)@[j],
    {
        if !self.is_betting_complete() {
            return Err(PKError::ActionIsntFinished);
        }
        let ghost before = self@;
        proof {
            lemma_bets_le_holdings(before);
        }
        let mut collected: usize = 0;
        let mut i: usize = 0;
        while i < self.0.len()
            invariant
                i <= self@.len() == before.len(),
                bets(before) <= usize::MAX,
                betting_complete(before),
                before == old(self)@,
                collected == bets(before.subrange(0, i as int)),
                forall|j: int| 0 <= j < i ==> #[trigger] self@[j] == closed_out(before[j]),
                forall|j: int| i <= j < self@.len() ==> #[trigger] self@[j] == before[j],
                forall|j: int|
                    0 <= j < i && (#[trigger] before[j]).player.bet > 0 ==> before[j].player.state.is_active(),
            decreases self@.len() - i,
        {
            proof {
                assert(before.subrange(0, i + 1).drop_last() =~= before.subrange(0, i as int));
                lemma_bets_prefix(before, i + 1);
            }
            let seat = &mut self.0[i];
            if seat.player.has_bet() {
                match seat.player.act_close_it_out() {
                    Ok(b) => {
                        collected = collected + b;
                    },
                    Err(e) => {
                        proof {
                            assert(before[i as int].player.bet > 0);
                            assert(!before[i as int].player.state.is_active());
                        }
                        return Err(e);
                    },
                }
            }
            i = i + 1;
        }
        proof {
            assert(before.subrange(0, before.len() as int) =~= before);
            assert(self@ =~= before.map_values(|x: Seat| closed_out(x)));
        }
        Ok(collected)
    }
}

} // verus!
