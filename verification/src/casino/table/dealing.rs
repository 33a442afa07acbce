//! Dealing at a table: hole cards around the ring, the board with its burn
//! cards, the muck, and the reset that gathers every card back.
use vstd::multiset::Multiset;
use vstd::prelude::*;

use crate::card::{bard_of, Bard, BoxedCards, Card};
use crate::casino::action::TableAction;
use crate::casino::table::actions::{mucked_entries, seat_emptied_to};
use crate::casino::table::seat::Seat;
use crate::casino::table::seats::{holdings, lemma_holdings_update, players_wf};
use crate::casino::table::{GamePhase, Table};
use crate::error::PKError;

verus! {

broadcast use vstd::seq_lib::group_to_multiset_ensures;

/// The cards held in the seats' boxes.
pub open spec fn seat_cards(s: Seq<Seat>) -> Multiset<Card>
    decreases s.len(),
{
    if s.len() == 0 {
        Multiset::empty()
    } else {
        seat_cards(s.drop_last()).add(s.last().cards.dealt@.to_multiset())
    }
}

/// Changing one seat changes the cards in the boxes by that seat's change.
pub proof fn lemma_seat_cards_update(s: Seq<Seat>, i: int, x: Seat)
    requires
        0 <= i < s.len(),
    ensures
        seat_cards(s.update(i, x)).add(s[i].cards.dealt@.to_multiset()) == seat_cards(s).add(
            x.cards.dealt@.to_multiset(),
        ),
    decreases s.len(),
{
    broadcast use vstd::multiset::group_multiset_axioms;

    let t = s.update(i, x);
    let d = s.drop_last();
    let si = s[i].cards.dealt@.to_multiset();
    let xm = x.cards.dealt@.to_multiset();
    assert(seat_cards(t) == seat_cards(t.drop_last()).add(t.last().cards.dealt@.to_multiset()));
    assert(seat_cards(s) == seat_cards(d).add(s.last().cards.dealt@.to_multiset()));
    if i < s.len() - 1 {
        lemma_seat_cards_update(d, i, x);
        assert(t.drop_last() =~= d.update(i, x));
        assert(t.last() == s.last());
        assert(d[i] == s[i]);
        assert forall|v: Card| #[trigger] seat_cards(t).add(si).count(v) == seat_cards(s).add(xm).count(v) by {
            assert(seat_cards(d.update(i, x)).add(si).count(v) == seat_cards(d).add(xm).count(v));
        }
    } else {
        assert(t.drop_last() =~= d);
        assert(t.last() == x);
        assert forall|v: Card| #[trigger] seat_cards(t).add(si).count(v) == seat_cards(s).add(xm).count(v) by {
        }
    }
    assert(seat_cards(t).add(si) =~= seat_cards(s).add(xm));
}

impl Table {
    /// Every card at the table: the deck, the board, the muck and the
    /// cards in the seats' boxes.
    pub open spec fn cards_at_table(&self) -> Multiset<Card> {
        self.deck@.to_multiset().add(self.board@.to_multiset()).add(self.muck@.to_multiset()).add(
            seat_cards(self.seats@),
        )
    }

    /// Takes the top card of the deck. Refused with `NotEnoughCards`,
    /// nothing changed, when the deck is empty.
    fn draw_top(&mut self) -> (r: Result<Card, PKError>)
        ensures
            old(self).deck@.len() == 0 ==> r == Err::<Card, PKError>(PKError::NotEnoughCards)
                && *final(self) == *old(self),
            old(self).deck@.len() > 0 ==> r == Ok::<Card, PKError>(old(self).deck@[0])
                && final(self).deck@ == old(self).deck@.drop_first() && *final(self) == (Table {
                deck: final(self).deck,
                ..*old(self)
            }),
    {
        if self.deck.len() == 0 {
            return Err(PKError::NotEnoughCards);
        }
        let c = self.deck.remove(0);
        proof {
            assert(self.deck@ =~= old(self).deck@.drop_first());
        }
        Ok(c)
    }

    /// What dealing the top card to `seat` does: past the end of the ring
    /// the attempt is logged and refused with `InvalidSeatNumber`; with an
    /// empty deck it is refused with `NotEnoughCards` and nothing changes;
    /// otherwise the top card leaves the deck and the deal is logged, and it
    /// lands in the seat's next blank slot, answering whether the box is now
    /// full, or, when the box is already full, it is refused with
    /// `NoBlankSlots` and the card is gone.
    pub open spec fn deal_outcome(before: Table, seat: u8, after: Table, r: Result<bool, PKError>) -> bool {
        if seat >= before.seats@.len() {
            &&& r == Err::<bool, PKError>(PKError::InvalidSeatNumber)
            &&& after.same_but_log(&before)
            &&& after.event_log@ == before.event_log@.push(TableAction::InvalidSeatNumber)
        } else if before.deck@.len() == 0 {
            r == Err::<bool, PKError>(PKError::NotEnoughCards) && Table::unchanged(before, after)
        } else {
            let c = before.deck@[0];
            let x = before.seats@[seat as int];
            &&& after.deck@ == before.deck@.drop_first()
            &&& after.event_log@ == before.event_log@.push(TableAction::Dealt(seat, bard_of(seq![c])))
            &&& after == (Table {
                seats: after.seats,
                deck: after.deck,
                event_log: after.event_log,
                ..before
            })
            &&& if x.cards.dealt@.len() >= x.cards.slots {
                r == Err::<bool, PKError>(PKError::NoBlankSlots) && after.seats@ == before.seats@
            } else {
                &&& after.seats@.len() == before.seats@.len()
                &&& forall|j: int|
                    0 <= j < before.seats@.len() && j != seat ==> after.seats@[j] == before.seats@[j]
                &&& after.seats@[seat as int].player == x.player
                &&& after.seats@[seat as int].bet_level_when_last_acted == x.bet_level_when_last_acted
                &&& after.seats@[seat as int].cards.slots == x.cards.slots
                &&& after.seats@[seat as int].cards.dealt@ == x.cards.dealt@.push(c)
                &&& r == Ok::<bool, PKError>(x.cards.dealt@.len() + 1 >= x.cards.slots)
            }
        }
    }

    /// Deals the top card of the deck to `seat_number` and answers whether
    /// its box is now full. No card is made or lost, except the one dealt
    /// to a full box.
    pub fn deal_card_to_seat(&mut self, seat_number: u8) -> (r: Result<bool, PKError>)
        requires
            old(self).wf(),
        ensures
            final(self).wf(),
            final(self).chips_on_table() == old(self).chips_on_table(),
            Table::deal_outcome(*old(self), seat_number, *final(self), r),
            r is Ok ==> final(self).cards_at_table() == old(self).cards_at_table(),
    {
        if (seat_number as usize) >= self.seats.0.len() {
            self.log(TableAction::InvalidSeatNumber);
            return Err(PKError::InvalidSeatNumber);
        }
        let ghost before = *self;
        let card = match self.draw_top() {
            Ok(c) => c,
            Err(e) => {
                return Err(e);
            },
        };
        let one = vec![card];
        proof {
            assert(one@ =~= seq![card]);
        }
        self.log(TableAction::Dealt(seat_number, Bard::from_cards(&one)));
        let ghost mid = *self;
        let idx = seat_number as usize;
        let r = self.seats.0[idx].cards.deal(card);
        match r {
            Ok(full) => {
                proof {
                    let x = before.seats@[idx as int];
                    let y = self.seats@[idx as int];
                    assert(self.seats@ =~= before.seats@.update(idx as int, y));
                    lemma_holdings_update(before.seats@, idx as int, y);
                    lemma_seat_cards_update(before.seats@, idx as int, y);
                    assert forall|j: int| 0 <= j < self.seats@.len() implies (#[trigger] self.seats@[j]).player.wf() by {
                        if j != idx {
                            assert(self.seats@[j] == before.seats@[j]);
                        }
                    }
                    assert(before.deck@ =~= seq![card] + before.deck@.drop_first());
                    vstd::seq_lib::lemma_multiset_commutative(seq![card], before.deck@.drop_first());
                    assert(y.cards.dealt@ == x.cards.dealt@.push(card));
                    assert(y.cards.dealt@.to_multiset() =~= x.cards.dealt@.to_multiset().insert(card));
                    broadcast use vstd::multiset::group_multiset_axioms;

                    let dm = before.deck@.drop_first().to_multiset();
                    assert(before.deck@.to_multiset() =~= seq![card].to_multiset().add(dm));
                    assert(seq![card] =~= Seq::<Card>::empty().push(card));
                    assert(seq![card].to_multiset() =~= Multiset::<Card>::empty().insert(card));
                    assert forall|v: Card| #[trigger] self.cards_at_table().count(v) == before.cards_at_table().count(v) by {
                        assert(seat_cards(self.seats@).add(x.cards.dealt@.to_multiset()).count(v) == seat_cards(before.seats@).add(y.cards.dealt@.to_multiset()).count(v));
                    }
                    assert(self.cards_at_table() =~= before.cards_at_table());
                }
                Ok(full)
            },
            Err(e) => {
                proof {
                    assert(self.seats@ =~= before.seats@);
                }
                Err(e)
            },
        }
    }
}

/// The seat dealt to at step `k` of a round starting at the button.
pub open spec fn deal_seat(n: nat, button: nat, k: nat) -> nat {
    (((button + k) as int) % (n as int)) as nat
}

/// The first `k` steps of a round of dealing over the seats `s` from the
/// deck `deck`, starting at the button and going clockwise: the cards of
/// every seat, the deck left and the log entries. Each step a seat in the
/// hand takes the top card, which is logged; a seat not in the hand is
/// passed. The round stops at an empty deck (`NotEnoughCards`) or a
/// full box (`NoBlankSlots`).
pub open spec fn dealing(s: Seq<Seat>, deck: Seq<Card>, button: nat, k: nat) -> Result<
    (Seq<Seq<Card>>, Seq<Card>, Seq<TableAction>),
    PKError,
>
    decreases k,
{
    if k == 0 {
        Ok((s.map_values(|x: Seat| x.cards.dealt@), deck, Seq::empty()))
    } else {
        match dealing(s, deck, button, (k - 1) as nat) {
            Err(e) => Err(e),
            Ok((boxes, rest, entries)) => {
                let i = deal_seat(s.len(), button, (k - 1) as nat);
                if !s[i as int].in_hand() {
                    Ok((boxes, rest, entries))
                } else if rest.len() == 0 {
                    Err(PKError::NotEnoughCards)
                } else if boxes[i as int].len() >= s[i as int].cards.slots {
                    Err(PKError::NoBlankSlots)
                } else {
                    Ok(
                        (
                            boxes.update(i as int, boxes[i as int].push(rest[0])),
                            rest.drop_first(),
                            entries.push(TableAction::Dealt(i as u8, bard_of(seq![rest[0]]))),
                        ),
                    )
                }
            },
        }
    }
}

/// The seats of `s` with the cards `boxes` and otherwise unchanged.
pub open spec fn boxes_are(before: Seq<Seat>, after: Seq<Seat>, boxes: Seq<Seq<Card>>) -> bool {
    &&& after.len() == before.len() == boxes.len()
    &&& forall|j: int|
        0 <= j < before.len() ==> (#[trigger] after[j]).player == before[j].player
            && after[j].bet_level_when_last_acted == before[j].bet_level_when_last_acted
            && after[j].cards.slots == before[j].cards.slots && after[j].cards.dealt@ == boxes[j]
}

/// The seats of `s` below `n` that are occupied with a full box, in order.
pub open spec fn full_seats(s: Seq<Seat>, n: nat) -> Seq<u8>
    decreases n,
{
    if n == 0 {
        Seq::empty()
    } else {
        let prev = full_seats(s, (n - 1) as nat);
        let x = s[n - 1];
        if !x.vacant() && x.cards.dealt@.len() >= x.cards.slots {
            prev.push((n - 1) as u8)
        } else {
            prev
        }
    }
}

/// `record` is, in seat order, each occupied seat of `s` with a full box
/// and a copy of that box.
pub open spec fn records_hole_cards(s: Seq<Seat>, record: Seq<(u8, BoxedCards)>) -> bool {
    &&& record.map_values(|e: (u8, BoxedCards)| e.0) == full_seats(s, s.len())
    &&& forall|k: int|
        0 <= k < record.len() ==> (#[trigger] record[k]).1.slots == s[record[k].0 as int].cards.slots
            && record[k].1.dealt@ == s[record[k].0 as int].cards.dealt@
}

/// The seats with a full box come in rising seat order.
pub proof fn lemma_full_seats_rise(s: Seq<Seat>, n: nat)
    requires
        n <= s.len() <= 256,
    ensures
        forall|k: int| 0 <= k < full_seats(s, n).len() ==> (#[trigger] full_seats(s, n)[k]) < n,
        forall|a: int, b: int|
            0 <= a < b < full_seats(s, n).len() ==> (#[trigger] full_seats(s, n)[a]) < (#[trigger] full_seats(s, n)[b]),
    decreases n,
{
    if n > 0 {
        lemma_full_seats_rise(s, (n - 1) as nat);
        let prev = full_seats(s, (n - 1) as nat);
        let f = full_seats(s, n);
        assert forall|k: int| 0 <= k < f.len() implies (#[trigger] f[k]) < n by {
            if k < prev.len() {
                assert(f[k] == prev[k]);
            }
        }
        assert forall|a: int, b: int| 0 <= a < b < f.len() implies (#[trigger] f[a]) < (#[trigger] f[b]) by {
            if b < prev.len() {
                assert(f[a] == prev[a] && f[b] == prev[b]);
            } else {
                assert(f[a] == prev[a]);
                assert(prev[a] < n - 1);
            }
        }
    }
}

/// Noted boxes in rising seat order note no seat twice.
pub proof fn lemma_records_distinct(s: Seq<Seat>, record: Seq<(u8, BoxedCards)>)
    requires
        s.len() <= 256,
        records_hole_cards(s, record),
    ensures
        crate::casino::table::dealt_seats_distinct(record),
{
    lemma_full_seats_rise(s, s.len());
    let f = full_seats(s, s.len());
    assert forall|a: int, b: int| 0 <= a < b < record.len() implies (#[trigger] record[a]).0 != (#[trigger] record[b]).0 by {
        assert(record.map_values(|e: (u8, BoxedCards)| e.0)[a] == f[a]);
        assert(record.map_values(|e: (u8, BoxedCards)| e.0)[b] == f[b]);
    }
}

impl Table {
    /// The cards each seat holds, as a sequence per seat.
    pub open spec fn boxes(&self) -> Seq<Seq<Card>> {
        self.seats@.map_values(|x: Seat| x.cards.dealt@)
    }

    /// Notes, in seat order, every occupied seat with a full box and its
    /// cards.
    fn record_hole_cards(&mut self)
        requires
            old(self).seats@.len() <= 256,
        ensures
            records_hole_cards(old(self).seats@, final(self).dealt_hole_cards@),
            *final(self) == (Table { dealt_hole_cards: final(self).dealt_hole_cards, ..*old(self) }),
    {
        let mut record: Vec<(u8, BoxedCards)> = Vec::new();
        let mut i: usize = 0;
        while i < self.seats.0.len()
            invariant
                i <= self.seats@.len() <= 256,
                record@.map_values(|e: (u8, BoxedCards)| e.0) == full_seats(self.seats@, i as nat),
                forall|k: int|
                    0 <= k < record@.len() ==> (#[trigger] record@[k]).1.slots
                        == self.seats@[record@[k].0 as int].cards.slots && record@[k].1.dealt@
                        == self.seats@[record@[k].0 as int].cards.dealt@,
            decreases self.seats@.len() - i,
        {
            let seat = &self.seats.0[i];
            if !seat.is_empty() && seat.cards.is_dealt() {
                let ghost before = record@;
                record.push((i as u8, seat.cards.copied()));
                proof {
                    assert(record@.map_values(|e: (u8, BoxedCards)| e.0) =~= before.map_values(
                        |e: (u8, BoxedCards)| e.0,
                    ).push(i as u8));
                }
            }
            i = i + 1;
        }
        self.dealt_hole_cards = record;
    }
}

/// How many of the first `k` steps of a round from `button` deal to seat `i`.
pub open spec fn dealt_to(n: nat, button: nat, i: nat, k: nat) -> nat
    decreases k,
{
    if k == 0 {
        0
    } else {
        dealt_to(n, button, i, (k - 1) as nat) + if deal_seat(n, button, (k - 1) as nat) == i {
            1nat
        } else {
            0nat
        }
    }
}

/// Steps less than a turn of the ring apart deal to different seats.
proof fn lemma_deal_seat_distinct(n: nat, b: nat, j1: nat, j2: nat)
    requires
        0 < n,
        j1 < j2 < j1 + n,
    ensures
        deal_seat(n, b, j1) != deal_seat(n, b, j2),
{
    let x = (b + j1) as int;
    let y = (b + j2) as int;
    let m = n as int;
    vstd::arithmetic::div_mod::lemma_fundamental_div_mod(x, m);
    vstd::arithmetic::div_mod::lemma_fundamental_div_mod(y, m);
    if x % m == y % m {
        let q1 = x / m;
        let q2 = y / m;
        assert(y - x == m * q2 - m * q1);
        assert(m * q2 - m * q1 == m * (q2 - q1)) by (nonlinear_arith);
        assert(0 < m * (q2 - q1) < m);
        assert(false) by (nonlinear_arith)
            requires
                0 < m * (q2 - q1) < m,
                m > 0,
        ;
    }
}

/// Where no step of a stretch deals to seat `i`, the count stands still.
proof fn lemma_dealt_to_skip(n: nat, b: nat, i: nat, m: nat, k: nat)
    requires
        m <= k,
        forall|j: nat| m <= j < k ==> deal_seat(n, b, j) != i,
    ensures
        dealt_to(n, b, i, k) == dealt_to(n, b, i, m),
    decreases k - m,
{
    if m < k {
        lemma_dealt_to_skip(n, b, i, m, (k - 1) as nat);
    }
}

/// Within the first turn of the ring a seat is dealt to at most once.
proof fn lemma_dealt_to_first_turn(n: nat, b: nat, i: nat, m: nat)
    requires
        0 < n,
        m <= n,
    ensures
        dealt_to(n, b, i, m) <= 1,
    decreases m,
{
    if m > 0 {
        let last = (m - 1) as nat;
        if deal_seat(n, b, last) == i {
            assert forall|j: nat| 0 <= j < last implies deal_seat(n, b, j) != i by {
                lemma_deal_seat_distinct(n, b, j, last);
            }
            lemma_dealt_to_skip(n, b, i, 0, last);
        } else {
            lemma_dealt_to_first_turn(n, b, i, last);
        }
    }
}

/// Within two turns of the ring, a seat about to be dealt to has had at
/// most one card of the round.
proof fn lemma_dealt_to_before_visit(n: nat, b: nat, i: nat, k: nat)
    requires
        0 < n,
        k < 2 * n,
        deal_seat(n, b, k) == i,
    ensures
        dealt_to(n, b, i, k) <= 1,
{
    if k < n {
        lemma_dealt_to_first_turn(n, b, i, k);
    } else {
        let m = (k - n + 1) as nat;
        assert forall|j: nat| m <= j < k implies deal_seat(n, b, j) != i by {
            lemma_deal_seat_distinct(n, b, j, k);
        }
        lemma_dealt_to_skip(n, b, i, m, k);
        lemma_dealt_to_first_turn(n, b, i, m);
    }
}

/// Whether every seat in the hand has room for two more cards.
pub open spec fn room_for_two(s: Seq<Seat>) -> bool {
    forall|i: int| 0 <= i < s.len() && (#[trigger] s[i]).in_hand() ==> s[i].cards.dealt@.len() + 2 <= s[i].cards.slots
}

proof fn lemma_dealing_progress(s: Seq<Seat>, deck: Seq<Card>, button: nat, k: nat)
    requires
        0 < s.len(),
        k <= 2 * s.len(),
        deck.len() >= 2 * s.len(),
        room_for_two(s),
    ensures
        dealing(s, deck, button, k) matches Ok((boxes, rest, entries)) && boxes.len() == s.len()
            && rest.len() + k >= deck.len() && forall|i: int|
            0 <= i < s.len() ==> (#[trigger] boxes[i]).len() == s[i].cards.dealt@.len() + (if s[i].in_hand() {
                dealt_to(s.len(), button, i as nat, k)
            } else {
                0
            }),
    decreases k,
{
    let n = s.len();
    if k == 0 {
        let boxes = s.map_values(|x: Seat| x.cards.dealt@);
        assert forall|i: int| 0 <= i < s.len() implies (#[trigger] boxes[i]).len() == s[i].cards.dealt@.len() + (
        if s[i].in_hand() {
            dealt_to(n, button, i as nat, 0)
        } else {
            0
        }) by {}
    } else {
        let k0 = (k - 1) as nat;
        lemma_dealing_progress(s, deck, button, k0);
        let (boxes, rest, entries) = dealing(s, deck, button, k0).unwrap();
        let i = deal_seat(n, button, k0);
        vstd::arithmetic::div_mod::lemma_mod_bound((button + k0) as int, n as int);
        assert(i < n);
        if s[i as int].in_hand() {
            lemma_dealt_to_before_visit(n, button, i, k0);
            assert(rest.len() > 0);
            assert(boxes[i as int].len() < s[i as int].cards.slots);
            let nb = boxes.update(i as int, boxes[i as int].push(rest[0]));
            assert forall|j: int| 0 <= j < s.len() implies (#[trigger] nb[j]).len() == s[j].cards.dealt@.len() + (
            if s[j].in_hand() {
                dealt_to(n, button, j as nat, k)
            } else {
                0
            }) by {
                if j != i {
                    assert(nb[j] == boxes[j]);
                }
            }
        } else {
            assert forall|j: int| 0 <= j < s.len() implies (#[trigger] boxes[j]).len() == s[j].cards.dealt@.len() + (
            if s[j].in_hand() {
                dealt_to(n, button, j as nat, k)
            } else {
                0
            }) by {
                if s[j].in_hand() {
                    assert(j != i);
                }
            }
        }
    }
}

/// A deck of at least two cards a seat deals every seat in the hand its
/// two hole cards, where each has room for them.
pub proof fn lemma_dealing_succeeds(s: Seq<Seat>, deck: Seq<Card>, button: nat)
    requires
        0 < s.len(),
        deck.len() >= 2 * s.len(),
        room_for_two(s),
    ensures
        dealing(s, deck, button, 2 * s.len()) is Ok,
{
    lemma_dealing_progress(s, deck, button, 2 * s.len());
}

/// A round of dealing that stopped stays stopped.
pub proof fn lemma_dealing_stops(s: Seq<Seat>, deck: Seq<Card>, button: nat, k: nat, m: nat)
    requires
        k <= m,
        dealing(s, deck, button, k) is Err,
    ensures
        dealing(s, deck, button, m) == dealing(s, deck, button, k),
    decreases m - k,
{
    if k < m {
        lemma_dealing_stops(s, deck, button, k, (m - 1) as nat);
    }
}

/// Whether, from `start`, the forced bets were posted and then two hole
/// cards dealt to every seat in the hand, leaving `after` and answering
/// `r`: a refused blind answers its refusal; a refused deal answers the
/// deal's error; else the seats hold the cards dealt from the top of the
/// deck, the deck is what is left, and the phase is `DealHoleCards`.
pub open spec fn hand_dealt(start: Table, after: Table, r: Result<(), PKError>) -> bool {
    exists|m1: Table, m2: Table, m3: Table, mf: Table, r1: Result<(), PKError>, r2: Result<(), PKError>, rf: Result<(), PKError>|
        {
            &&& #[trigger] Table::forced_bets_steps(start, m1, m2, m3, r1, r2, mf, rf)
            &&& rf is Err ==> r == rf && after == mf
            &&& rf is Ok ==> match dealing(mf.seats@, mf.deck@, mf.button as nat, 2 * mf.seats@.len()) {
                Err(e) => r == Err::<(), PKError>(e),
                Ok((boxes, deck, entries)) => {
                    &&& r is Ok
                    &&& boxes_are(mf.seats@, after.seats@, boxes)
                    &&& after.deck@ == deck
                    &&& after.phase == GamePhase::DealHoleCards
                    &&& after.pot == mf.pot && after.bet == mf.bet && after.button == mf.button
                    &&& after.forced == mf.forced
                },
            }
        }
}

/// Whether posting the forced bets of `start` was refused with `e`.
pub open spec fn blinds_refused(start: Table, e: PKError) -> bool {
    exists|m1: Table, m2: Table, m3: Table, mf: Table, r1: Result<(), PKError>, r2: Result<(), PKError>|
        #[trigger] Table::forced_bets_steps(start, m1, m2, m3, r1, r2, mf, Err::<(), PKError>(e))
}

/// Posting the forced bets leaves the deck and the hole-card boxes as
/// they were, and takes no seat into the hand.
pub proof fn lemma_posting_keeps_room(
    start: Table,
    m1: Table,
    m2: Table,
    m3: Table,
    r1: Result<(), PKError>,
    r2: Result<(), PKError>,
    mf: Table,
)
    requires
        Table::forced_bets_steps(start, m1, m2, m3, r1, r2, mf, Ok::<(), PKError>(())),
        room_for_two(start.seats@),
    ensures
        mf.deck@ == start.deck@,
        mf.seats@.len() == start.seats@.len(),
        room_for_two(mf.seats@),
{
    let s0 = start.seats@;
    assert(m1.deck == start.deck && m1.seats@.len() == s0.len());
    assert forall|i: int| 0 <= i < m1.seats@.len() && (#[trigger] m1.seats@[i]).in_hand() implies s0[i].in_hand()
        && m1.seats@[i].cards == s0[i].cards by {
        if start.forced.ante != 0 {
            assert(m1.seats@[i] == crate::casino::table::forced::ante_posted(s0[i], start.forced.ante));
        }
    }
    assert(room_for_two(m1.seats@));
    assert(m2.seats@.len() == m1.seats@.len());
    assert forall|i: int| 0 <= i < m2.seats@.len() && (#[trigger] m2.seats@[i]).in_hand() implies m1.seats@[i].in_hand()
        && m2.seats@[i].cards == m1.seats@[i].cards by {
    }
    assert(room_for_two(m2.seats@));
    assert forall|i: int| 0 <= i < m3.seats@.len() && (#[trigger] m3.seats@[i]).in_hand() implies m2.seats@[i].in_hand()
        && m3.seats@[i].cards == m2.seats@[i].cards by {
    }
    assert(room_for_two(m3.seats@));
}

/// The count in the log entry announcing a deal of `n` cards: zero when it
/// does not fit in a `u8`.
pub open spec fn dealing_count(n: nat) -> u8 {
    if n <= 255 {
        n as u8
    } else {
        0
    }
}

impl Table {
    /// What dealing the hole cards does to `before`, as `dealing` says: its
    /// error, or the seats holding the cards dealt, the deck what is left,
    /// the phase `DealHoleCards`, the boxes noted and the deal logged.
    pub open spec fn hole_cards_outcome(before: Table, after: Table, r: Result<(), PKError>) -> bool {
        match dealing(before.seats@, before.deck@, before.button as nat, 2 * before.seats@.len()) {
            Err(e) => r == Err::<(), PKError>(e),
            Ok((boxes, deck, entries)) => {
                &&& r is Ok
                &&& boxes_are(before.seats@, after.seats@, boxes)
                &&& after.deck@ == deck
                &&& after.phase == GamePhase::DealHoleCards
                &&& records_hole_cards(after.seats@, after.dealt_hole_cards@)
                &&& after.cards_at_table() == before.cards_at_table()
                &&& after.event_log@ == before.event_log@ + seq![
                    TableAction::DealingXCards(dealing_count(2 * before.seats@.len())),
                ] + entries + seq![TableAction::DealtPlayers]
                &&& after == (Table {
                    seats: after.seats,
                    deck: after.deck,
                    phase: after.phase,
                    dealt_hole_cards: after.dealt_hole_cards,
                    event_log: after.event_log,
                    ..before
                })
            },
        }
    }

    /// Deals two cards to every seat in the hand, one at a time around the
    /// ring from the button, as `dealing` says; then notes every occupied
    /// seat's full box, sets the phase to `DealHoleCards` and logs it. A
    /// refused deal answers the refusal.
    pub fn deal_cards_to_seats(&mut self) -> (r: Result<(), PKError>)
        requires
            old(self).wf(),
            old(self).seats@.len() > 0,
        ensures
            final(self).wf(),
            final(self).seats@.len() == old(self).seats@.len(),
            final(self).chips_on_table() == old(self).chips_on_table(),
            Table::hole_cards_outcome(*old(self), *final(self), r),
            old(self).deck@.len() >= 2 * old(self).seats@.len() && room_for_two(old(self).seats@) ==> r is Ok,
    {
        proof {
            if old(self).deck@.len() >= 2 * old(self).seats@.len() && room_for_two(old(self).seats@) {
                lemma_dealing_succeeds(old(self).seats@, old(self).deck@, old(self).button as nat);
            }
        }
        let ghost before = *self;
        let n = self.seats.0.len();
        let capacity = n * 2;
        let count: u8 = if capacity <= 255 {
            capacity as u8
        } else {
            0
        };
        self.log(TableAction::DealingXCards(count));
        let button = self.button as usize;
        let mut k: usize = 0;
        while k < capacity
            invariant
                n == before.seats@.len() == self.seats@.len(),
                before == *old(self),
                0 < n <= 256,
                capacity == 2 * n,
                k <= capacity,
                before.deck@.len() >= 2 * n && room_for_two(before.seats@) ==> dealing(
                    before.seats@,
                    before.deck@,
                    before.button as nat,
                    capacity as nat,
                ) is Ok,
                button == before.button,
                self.wf(),
                self.chips_on_table() == before.chips_on_table(),
                dealing(before.seats@, before.deck@, button as nat, k as nat) matches Ok((boxes, deck, entries))
                    && boxes_are(before.seats@, self.seats@, boxes) && self.deck@ == deck
                    && self.event_log@ == before.event_log@ + seq![TableAction::DealingXCards(count)]
                    + entries,
                self.cards_at_table() == before.cards_at_table(),
                *self == (Table {
                    seats: self.seats,
                    deck: self.deck,
                    event_log: self.event_log,
                    ..before
                }),
            decreases capacity - k,
        {
            let seat = ((button + k) % n) as u8;
            proof {
                assert(seat as nat == crate::casino::table::dealing::deal_seat(n as nat, button as nat, k as nat));
            }
            let ghost mid = *self;
            if self.seats.is_seat_in_hand(seat) {
                proof {
                    assert(self.seats@[seat as int].in_hand() == before.seats@[seat as int].in_hand());
                }
                match self.deal_card_to_seat(seat) {
                    Ok(_) => {},
                    Err(e) => {
                        proof {
                            assert(dealing(before.seats@, before.deck@, button as nat, (k + 1) as nat) == Err::<
                                (Seq<Seq<Card>>, Seq<Card>, Seq<TableAction>),
                                PKError,
                            >(e));
                            lemma_dealing_stops(before.seats@, before.deck@, button as nat, (k + 1) as nat, capacity as nat);
                        }
                        return Err(e);
                    },
                }
                proof {
                    let prev = dealing(before.seats@, before.deck@, button as nat, k as nat).unwrap();
                    let boxes = prev.0;
                    let x = mid.seats@[seat as int];
                    assert(self.event_log@ =~= before.event_log@ + seq![TableAction::DealingXCards(count)] + prev.2.push(
                        TableAction::Dealt(seat, bard_of(seq![prev.1[0]])),
                    ));
                    assert forall|j: int| 0 <= j < n implies (#[trigger] self.seats@[j]).player == before.seats@[j].player
                        && self.seats@[j].bet_level_when_last_acted == before.seats@[j].bet_level_when_last_acted
                        && self.seats@[j].cards.slots == before.seats@[j].cards.slots
                        && self.seats@[j].cards.dealt@ == boxes.update(seat as int, boxes[seat as int].push(prev.1[0]))[j] by {
                        if j != seat {
                            assert(self.seats@[j] == mid.seats@[j]);
                        }
                    }
                }
            } else {
                proof {
                    assert(!before.seats@[seat as int].in_hand());
                }
            }
            k = k + 1;
        }
        self.phase = GamePhase::DealHoleCards;
        self.record_hole_cards();
        proof {
            lemma_records_distinct(self.seats@, self.dealt_hole_cards@);
        }
        self.log(TableAction::DealtPlayers);
        proof {
            let fin = dealing(before.seats@, before.deck@, button as nat, capacity as nat).unwrap();
            assert(self.event_log@ =~= before.event_log@ + seq![TableAction::DealingXCards(count)] + fin.2 + seq![
                TableAction::DealtPlayers,
            ]);
        }
        Ok(())
    }
}

impl Table {
    /// Takes the top `n` cards of the deck, in order. Refused with
    /// `NotEnoughCards`, nothing changed, when the deck holds fewer.
    fn draw_top_n(&mut self, n: usize) -> (r: Result<Vec<Card>, PKError>)
        ensures
            old(self).deck@.len() < n ==> r is Err && r == Err::<Vec<Card>, PKError>(
                PKError::NotEnoughCards,
            ) && *final(self) == *old(self),
            old(self).deck@.len() >= n ==> (r matches Ok(v) && v@ == old(self).deck@.subrange(0, n as int)
                && final(self).deck@ == old(self).deck@.subrange(n as int, old(self).deck@.len() as int)
                && *final(self) == (Table { deck: final(self).deck, ..*old(self) })),
    {
        if self.deck.len() < n {
            return Err(PKError::NotEnoughCards);
        }
        let rest = self.deck.split_off(n);
        let mut top = rest;
        std::mem::swap(&mut top, &mut self.deck);
        Ok(top)
    }

    /// Replaces the board with `cards`, taking them out of the deck; the
    /// old board is dropped.
    pub fn set_board(&mut self, cards: Vec<Card>)
        ensures
            final(self).board@ == cards@,
            final(self).deck@ == old(self).deck@.filter(|c: Card| !cards@.contains(c)),
            *final(self) == (Table { board: final(self).board, deck: final(self).deck, ..*old(self) }),
    {
        let mut kept: Vec<Card> = Vec::new();
        let mut i: usize = 0;
        while i < self.deck.len()
            invariant
                i <= self.deck@.len(),
                kept@ == self.deck@.subrange(0, i as int).filter(|c: Card| !cards@.contains(c)),
            decreases self.deck@.len() - i,
        {
            let c = self.deck[i];
            let mut found = false;
            let mut j: usize = 0;
            while j < cards.len()
                invariant
                    j <= cards@.len(),
                    found == cards@.subrange(0, j as int).contains(c),
                decreases cards@.len() - j,
            {
                if cards[j] == c {
                    found = true;
                }
                proof {
                    let pre = cards@.subrange(0, j as int);
                    let nxt = cards@.subrange(0, j + 1);
                    assert(nxt =~= pre.push(cards@[j as int]));
                    if cards@[j as int] == c {
                        assert(nxt[j as int] == c);
                    } else {
                        assert forall|k: int| 0 <= k < nxt.len() && nxt[k] == c implies pre.contains(c) by {
                            assert(pre[k] == c);
                        }
                        if pre.contains(c) {
                            let k = choose|k: int| 0 <= k < pre.len() && pre[k] == c;
                            assert(nxt[k] == c);
                        }
                    }
                }
                j = j + 1;
            }
            proof {
                assert(cards@.subrange(0, cards@.len() as int) =~= cards@);
                assert(self.deck@.subrange(0, i + 1) =~= self.deck@.subrange(0, i as int).push(c));
            }
            if !found {
                kept.push(c);
            }
            proof {
                let f = |x: Card| !cards@.contains(x);
                let pre = self.deck@.subrange(0, i as int);
                pre.lemma_filter_push(c, f);
            }
            i = i + 1;
        }
        proof {
            assert(self.deck@.subrange(0, self.deck@.len() as int) =~= self.deck@);
        }
        self.deck = kept;
        self.board = cards;
    }
}

/// Filtering keeps a sequence whole when every element passes.
pub proof fn lemma_filter_keeps_all(s: Seq<Card>, pred: spec_fn(Card) -> bool)
    requires
        forall|i: int| 0 <= i < s.len() ==> pred(#[trigger] s[i]),
    ensures
        s.filter(pred) == s,
    decreases s.len(),
{
    if s.len() > 0 {
        let d = s.drop_last();
        lemma_filter_keeps_all(d, pred);
        d.lemma_filter_push(s.last(), pred);
        assert(d.push(s.last()) =~= s);
    } else {
        assert(s.filter(pred) =~= s);
    }
}

impl Table {
    /// What dealing the flop does to `before`: the burn and three cards off
    /// the top when the deck holds four; else `NotEnoughCards`, the burn
    /// taken when there was a card for it. The phase becomes `DealFlop`.
    pub open spec fn flop_outcome(before: Table, after: Table, r: Result<(), PKError>) -> bool {
        &&& (before.deck@.len() == 0 ==> r == Err::<(), PKError>(PKError::NotEnoughCards)
                && after == (Table { phase: GamePhase::DealFlop, ..before }))
        &&& (0 < before.deck@.len() < 4 ==> r == Err::<(), PKError>(PKError::NotEnoughCards)
                && after.deck@ == before.deck@.drop_first() && after.muck@ == before.muck@.push(before.deck@[0]) && after == (Table {
                phase: GamePhase::DealFlop,
                deck: after.deck,
                muck: after.muck,
                ..before
            }))
        &&& (before.deck@.len() >= 4 ==> {
                let d = before.deck@;
                let flop = d.subrange(1, 4);
                &&& r is Ok
                &&& after.muck@ == before.muck@.push(d[0])
                &&& after.board@ == flop
                &&& after.deck@ == d.subrange(4, d.len() as int).filter(|c: Card| !flop.contains(c))
                &&& after.event_log@ == before.event_log@.push(TableAction::DealtFlop(bard_of(flop)))
                &&& after == (Table {
                    phase: GamePhase::DealFlop,
                    deck: after.deck,
                    muck: after.muck,
                    board: after.board,
                    event_log: after.event_log,
                    ..before
                })
            })
    }

    /// Deals the flop: the phase becomes `DealFlop`, the top card is burned
    /// into the muck and the next three become the board (taken out of the
    /// deck once more), and the flop is logged. Refused with
    /// `NotEnoughCards` at an empty deck, or after the burn when fewer than
    /// three cards are left.
    pub fn deal_flop(&mut self) -> (r: Result<(), PKError>)
        ensures
            Table::flop_outcome(*old(self), *final(self), r),
            r is Ok && old(self).board@.len() == 0 && old(self).deck@.no_duplicates()
                ==> final(self).cards_at_table() == old(self).cards_at_table(),
    {
        self.phase = GamePhase::DealFlop;
        let burn = self.draw_top()?;
        self.muck.push(burn);
        let ghost before = *old(self);
        let flop = match self.draw_top_n(3) {
            Ok(v) => v,
            Err(e) => {
                return Err(e);
            },
        };
        let ghost rest = self.deck@;
        self.set_board(flop);
        let b = Bard::from_cards(&self.board);
        self.log(TableAction::DealtFlop(b));
        proof {
            let d = before.deck@;
            let fl = d.subrange(1, 4);
            assert(d.drop_first().subrange(0, 3) =~= fl);
            assert(d.drop_first().subrange(3, d.len() - 1) =~= d.subrange(4, d.len() as int));
            if before.board@.len() == 0 && d.no_duplicates() {
                let f = |c: Card| !fl.contains(c);
                assert forall|i: int| 0 <= i < rest.len() implies f(#[trigger] rest[i]) by {
                    if fl.contains(rest[i]) {
                        let k = choose|k: int| 0 <= k < fl.len() && fl[k] == rest[i];
                        assert(d[1 + k] == d[4 + i]);
                    }
                }
                lemma_filter_keeps_all(rest, f);
                broadcast use vstd::multiset::group_multiset_axioms;

                assert(d =~= seq![d[0]] + fl + rest);
                vstd::seq_lib::lemma_multiset_commutative(seq![d[0]] + fl, rest);
                vstd::seq_lib::lemma_multiset_commutative(seq![d[0]], fl);
                assert(seq![d[0]] =~= Seq::<Card>::empty().push(d[0]));
                assert(self.muck@ == before.muck@.push(d[0]));
                assert(self.cards_at_table() =~= before.cards_at_table());
            }
        }
        Ok(())
    }

    /// Deals the turn (`turn` true) or the river: the phase becomes
    /// `DealTurn` or `DealRiver`, the top card is burned into the muck, the
    /// next one goes on the board and is logged. Refused with
    /// `NotEnoughCards` at an empty deck, or after the burn when no card is
    /// left.
    fn deal_street_card(&mut self, turn: bool) -> (r: Result<(), PKError>)
        ensures
            Table::street_card_outcome(*old(self), turn, *final(self), r),
            r is Ok ==> final(self).cards_at_table() == old(self).cards_at_table(),
    {
        self.phase = if turn {
            GamePhase::DealTurn
        } else {
            GamePhase::DealRiver
        };
        let burn = self.draw_top()?;
        self.muck.push(burn);
        let card = self.draw_top()?;
        self.board.push(card);
        let one = vec![card];
        proof {
            assert(one@ =~= seq![card]);
        }
        let b = Bard::from_cards(&one);
        self.log(
            if turn {
                TableAction::DealtTurn(b)
            } else {
                TableAction::DealtRiver(b)
            },
        );
        proof {
            let d = old(self).deck@;
            broadcast use vstd::multiset::group_multiset_axioms;

            assert(d =~= seq![d[0], d[1]] + d.subrange(2, d.len() as int));
            assert(self.deck@ =~= d.subrange(2, d.len() as int));
            vstd::seq_lib::lemma_multiset_commutative(seq![d[0], d[1]], d.subrange(2, d.len() as int));
            assert(seq![d[0], d[1]] =~= Seq::<Card>::empty().push(d[0]).push(d[1]));
            assert(self.cards_at_table() =~= old(self).cards_at_table());
        }
        Ok(())
    }

    /// What dealing the turn or the river does, as `deal_street_card`
    /// describes it.
    pub open spec fn street_card_outcome(before: Table, turn: bool, after: Table, r: Result<(), PKError>) -> bool {
        let d = before.deck@;
        let phase = if turn {
            GamePhase::DealTurn
        } else {
            GamePhase::DealRiver
        };
        if d.len() == 0 {
            r == Err::<(), PKError>(PKError::NotEnoughCards) && after == (Table { phase, ..before })
        } else if d.len() == 1 {
            &&& r == Err::<(), PKError>(PKError::NotEnoughCards)
            &&& after.deck@ == d.drop_first()
            &&& after.muck@ == before.muck@.push(d[0])
            &&& after == (Table { phase, deck: after.deck, muck: after.muck, ..before })
        } else {
            &&& r is Ok
            &&& after.muck@ == before.muck@.push(d[0])
            &&& after.board@ == before.board@.push(d[1])
            &&& after.deck@ == d.subrange(2, d.len() as int)
            &&& after.event_log@ == before.event_log@.push(
                if turn {
                    TableAction::DealtTurn(bard_of(seq![d[1]]))
                } else {
                    TableAction::DealtRiver(bard_of(seq![d[1]]))
                },
            )
            &&& after == (Table {
                phase,
                deck: after.deck,
                muck: after.muck,
                board: after.board,
                event_log: after.event_log,
                ..before
            })
        }
    }

    /// Deals the turn.
    pub fn deal_turn(&mut self) -> (r: Result<(), PKError>)
        ensures
            Table::street_card_outcome(*old(self), true, *final(self), r),
            r is Ok ==> final(self).cards_at_table() == old(self).cards_at_table(),
    {
        self.deal_street_card(true)
    }

    /// Deals the river.
    pub fn deal_river(&mut self) -> (r: Result<(), PKError>)
        ensures
            Table::street_card_outcome(*old(self), false, *final(self), r),
            r is Ok ==> final(self).cards_at_table() == old(self).cards_at_table(),
    {
        self.deal_street_card(false)
    }
}

/// Going round the ring from `b`, the `((j - b) mod n)`-th seat is `j`.
pub proof fn lemma_ring_reaches(n: nat, b: nat, j: nat)
    requires
        0 < n,
        j < n,
    ensures
        0 <= (j - b) % (n as int) < n,
        deal_seat(n, b, ((j - b) % (n as int)) as nat) == j,
{
    let t = (j - b) % (n as int);
    vstd::arithmetic::div_mod::lemma_add_mod_noop(b as int, j - b, n as int);
    vstd::arithmetic::div_mod::lemma_add_mod_noop(b as int, t, n as int);
    vstd::arithmetic::div_mod::lemma_mod_bound(j - b, n as int);
    vstd::arithmetic::div_mod::lemma_small_mod(t as nat, n);
    vstd::arithmetic::div_mod::lemma_small_mod(j, n);
}

/// The first `k` steps of the players mucking round the ring of `n` seats
/// from the button: the cards left in each box, the cards in the muck in
/// the order thrown, and the log entries.
pub open spec fn mucking(boxes: Seq<Seq<Card>>, n: nat, button: nat, k: nat) -> (
    Seq<Seq<Card>>,
    Seq<Card>,
    Seq<TableAction>,
)
    decreases k,
{
    if k == 0 {
        (boxes, Seq::empty(), Seq::empty())
    } else {
        let (b, m, e) = mucking(boxes, n, button, (k - 1) as nat);
        let i = deal_seat(n, button, (k - 1) as nat);
        (b.update(i as int, Seq::empty()), m + b[i as int], e + mucked_entries(i as u8, b[i as int]))
    }
}

/// Mucking keeps the number of boxes, and every box visited is empty.
pub proof fn lemma_mucking_empties(boxes: Seq<Seq<Card>>, n: nat, button: nat, k: nat)
    requires
        0 < n == boxes.len(),
    ensures
        mucking(boxes, n, button, k).0.len() == n,
        forall|t: nat| t < k ==> (#[trigger] mucking(boxes, n, button, k).0[deal_seat(n, button, t) as int]).len() == 0,
    decreases k,
{
    if k > 0 {
        lemma_mucking_empties(boxes, n, button, (k - 1) as nat);
        let prev = mucking(boxes, n, button, (k - 1) as nat).0;
        let i = deal_seat(n, button, (k - 1) as nat);
        vstd::arithmetic::div_mod::lemma_mod_bound((button + k - 1) as int, n as int);
        assert forall|t: nat| t < k implies (#[trigger] mucking(boxes, n, button, k).0[deal_seat(n, button, t) as int]).len() == 0 by {
            vstd::arithmetic::div_mod::lemma_mod_bound((button + t) as int, n as int);
            if t < k - 1 {
                assert(prev[deal_seat(n, button, t) as int].len() == 0);
            }
        }
    }
}

impl Table {
    /// Every player throws their cards into the muck, going round the ring
    /// from the button, as `mucking` says.
    pub fn muck_players(&mut self)
        requires
            old(self).seats@.len() <= 256,
        ensures
            ({
                let n = old(self).seats@.len();
                let (boxes, thrown, entries) = mucking(old(self).boxes(), n, old(self).button as nat, n);
                &&& boxes_are(old(self).seats@, final(self).seats@, boxes)
                &&& forall|j: int| 0 <= j < n ==> (#[trigger] final(self).seats@[j]).cards.dealt@.len() == 0
                &&& final(self).muck@ == old(self).muck@ + thrown
                &&& final(self).event_log@ == old(self).event_log@ + entries
                &&& *final(self) == (Table {
                    seats: final(self).seats,
                    muck: final(self).muck,
                    event_log: final(self).event_log,
                    ..*old(self)
                })
            }),
            final(self).cards_at_table() == old(self).cards_at_table(),
    {
        let n = self.seats.0.len();
        if n == 0 {
            proof {
                assert(self.boxes() =~= Seq::<Seq<Card>>::empty());
                assert(self.muck@ =~= self.muck@ + Seq::<Card>::empty());
                assert(self.event_log@ =~= self.event_log@ + Seq::<TableAction>::empty());
            }
            return ;
        }
        let ghost before = *self;
        let button = self.button as usize;
        let mut k: usize = 0;
        while k < n
            invariant
                0 < n == before.seats@.len() == self.seats@.len() <= 256,
                before == *old(self),
                button == before.button,
                k <= n,
                ({
                    let (boxes, thrown, entries) = mucking(before.boxes(), n as nat, button as nat, k as nat);
                    &&& boxes_are(before.seats@, self.seats@, boxes)
                    &&& self.muck@ == before.muck@ + thrown
                    &&& self.event_log@ == before.event_log@ + entries
                }),
                *self == (Table {
                    seats: self.seats,
                    muck: self.muck,
                    event_log: self.event_log,
                    ..before
                }),
                self.cards_at_table() == before.cards_at_table(),
            decreases n - k,
        {
            let seat = ((button + k) % n) as u8;
            proof {
                assert(seat as nat == deal_seat(n as nat, button as nat, k as nat));
            }
            let ghost mid = *self;
            self.player_mucks_cards(seat);
            proof {
                let (boxes, thrown, entries) = mucking(before.boxes(), n as nat, button as nat, k as nat);
                let x = mid.seats@[seat as int];
                assert(x.cards.dealt@ == boxes[seat as int]);
                assert(self.muck@ =~= before.muck@ + (thrown + boxes[seat as int]));
                assert(self.event_log@ =~= before.event_log@ + (entries + mucked_entries(seat, boxes[seat as int])));
                let nb = boxes.update(seat as int, Seq::empty());
                assert forall|j: int| 0 <= j < n implies (#[trigger] self.seats@[j]).player == before.seats@[j].player
                    && self.seats@[j].bet_level_when_last_acted == before.seats@[j].bet_level_when_last_acted
                    && self.seats@[j].cards.slots == before.seats@[j].cards.slots
                    && self.seats@[j].cards.dealt@ == nb[j] by {
                    if j != seat {
                        assert(self.seats@[j] == mid.seats@[j]);
                    } else {
                        assert(self.seats@[j].cards.dealt@ =~= nb[j]);
                    }
                }
            }
            k = k + 1;
        }
        proof {
            let boxes = mucking(before.boxes(), n as nat, button as nat, n as nat).0;
            lemma_mucking_empties(before.boxes(), n as nat, button as nat, n as nat);
            assert forall|j: int| 0 <= j < n implies (#[trigger] self.seats@[j]).cards.dealt@.len() == 0 by {
                lemma_ring_reaches(n as nat, button as nat, j as nat);
                let t = ((j - button) % (n as int)) as nat;
                assert(boxes[deal_seat(n as nat, button as nat, t) as int].len() == 0);
            }
        }
    }
}

/// The cards are in deck order.
pub open spec fn in_deck_order(s: Seq<Card>) -> bool {
    forall|i: int, j: int| 0 <= i < j < s.len() ==> s[i].0 <= s[j].0
}

/// The number of distinct cards in a run in deck order.
pub open spec fn distinct_in_order(s: Seq<Card>) -> nat
    decreases s.len(),
{
    if s.len() == 0 {
        0
    } else if s.len() == 1 || s[s.len() - 1] != s[s.len() - 2] {
        distinct_in_order(s.drop_last()) + 1
    } else {
        distinct_in_order(s.drop_last())
    }
}

/// Puts `v` in deck order.
pub fn sort_cards(v: &mut Vec<Card>)
    ensures
        in_deck_order(final(v)@),
        final(v)@.to_multiset() == old(v)@.to_multiset(),
        final(v)@.len() == old(v)@.len(),
{
    let mut sorted: Vec<Card> = Vec::new();
    let mut i: usize = 0;
    while i < v.len()
        invariant
            i <= v@.len(),
            v@ == old(v)@,
            in_deck_order(sorted@),
            sorted@.to_multiset() == v@.subrange(0, i as int).to_multiset(),
            sorted@.len() == i,
        decreases v@.len() - i,
    {
        let c = v[i];
        let mut p: usize = 0;
        while p < sorted.len() && sorted[p].0 <= c.0
            invariant
                p <= sorted@.len(),
                forall|k: int| 0 <= k < p ==> (#[trigger] sorted@[k]).0 <= c.0,
            decreases sorted@.len() - p,
        {
            p = p + 1;
        }
        proof {
            if p < sorted@.len() {
                assert forall|k: int| p <= k < sorted@.len() implies (#[trigger] sorted@[k]).0 > c.0 by {
                    assert(sorted@[p as int].0 <= sorted@[k].0 || k == p);
                }
            }
        }
        let ghost before = sorted@;
        sorted.insert(p, c);
        proof {
            assert(sorted@ =~= before.insert(p as int, c));
            assert(in_deck_order(sorted@)) by {
                assert forall|a: int, b: int| 0 <= a < b < sorted@.len() implies sorted@[a].0 <= sorted@[b].0 by {
                    if b < p {
                    } else if b == p {
                        assert(sorted@[a] == before[a]);
                    } else if a < p {
                        assert(sorted@[a] == before[a]);
                        assert(sorted@[b] == before[b - 1]);
                        if b - 1 >= p {
                            assert(before[b - 1].0 > c.0);
                        }
                    } else if a == p {
                        assert(sorted@[b] == before[b - 1]);
                    } else {
                        assert(sorted@[a] == before[a - 1]);
                        assert(sorted@[b] == before[b - 1]);
                    }
                }
            }
            assert(v@.subrange(0, i + 1) =~= v@.subrange(0, i as int).push(c));
        }
        i = i + 1;
    }
    proof {
        assert(v@.subrange(0, v@.len() as int) =~= v@);
    }
    *v = sorted;
}

/// The audit entry for a deck of `n` distinct cards after a reset.
pub open spec fn deck_audit(n: nat) -> TableAction {
    if n < 52 {
        TableAction::NotEnoughCards
    } else if n > 52 {
        TableAction::TooManyCards
    } else {
        TableAction::DeckPassesAudit
    }
}

/// Counts the distinct cards of a run in deck order.
fn count_distinct(v: &Vec<Card>) -> (n: usize)
    ensures
        n == distinct_in_order(v@),
{
    let mut n: usize = 0;
    let mut i: usize = 0;
    while i < v.len()
        invariant
            i <= v@.len(),
            n == distinct_in_order(v@.subrange(0, i as int)),
            n <= i,
        decreases v@.len() - i,
    {
        proof {
            assert(v@.subrange(0, i + 1).drop_last() =~= v@.subrange(0, i as int));
        }
        if i == 0 || v[i] != v[i - 1] {
            n = n + 1;
        }
        i = i + 1;
    }
    proof {
        assert(v@.subrange(0, v@.len() as int) =~= v@);
    }
    n
}

impl Table {
    /// Throws the board into the muck, logged.
    pub fn muck_board(&mut self)
        ensures
            final(self).board@.len() == 0,
            final(self).muck@ == old(self).muck@ + old(self).board@,
            final(self).event_log@ == old(self).event_log@.push(TableAction::MuckCards(bard_of(old(self).board@))),
            *final(self) == (Table {
                board: final(self).board,
                muck: final(self).muck,
                event_log: final(self).event_log,
                ..*old(self)
            }),
            final(self).cards_at_table() == old(self).cards_at_table(),
    {
        let mut cards: Vec<Card> = Vec::new();
        std::mem::swap(&mut cards, &mut self.board);
        let b = Bard::from_cards(&cards);
        self.log(TableAction::MuckCards(b));
        let ghost taken = cards@;
        self.muck.append(&mut cards);
        proof {
            broadcast use vstd::multiset::group_multiset_axioms;

            vstd::seq_lib::lemma_multiset_commutative(old(self).muck@, taken);
            assert(self.board@.to_multiset() =~= Multiset::<Card>::empty()) by {
                assert(self.board@.to_multiset().len() == 0);
            }
            assert(self.cards_at_table() =~= old(self).cards_at_table());
        }
    }

    /// Throws the deck into the muck, logged.
    pub fn muck_deck(&mut self)
        ensures
            final(self).deck@.len() == 0,
            final(self).muck@ == old(self).muck@ + old(self).deck@,
            final(self).event_log@ == old(self).event_log@.push(TableAction::MuckCards(bard_of(old(self).deck@))),
            *final(self) == (Table {
                deck: final(self).deck,
                muck: final(self).muck,
                event_log: final(self).event_log,
                ..*old(self)
            }),
            final(self).cards_at_table() == old(self).cards_at_table(),
    {
        let mut cards: Vec<Card> = Vec::new();
        std::mem::swap(&mut cards, &mut self.deck);
        let b = Bard::from_cards(&cards);
        self.log(TableAction::MuckCards(b));
        let ghost taken = cards@;
        self.muck.append(&mut cards);
        proof {
            broadcast use vstd::multiset::group_multiset_axioms;

            vstd::seq_lib::lemma_multiset_commutative(old(self).muck@, taken);
            assert(self.deck@.to_multiset() =~= Multiset::<Card>::empty()) by {
                assert(self.deck@.to_multiset().len() == 0);
            }
            assert(self.cards_at_table() =~= old(self).cards_at_table());
        }
    }

    /// Throws every card in play into the muck: the players' cards, then
    /// the board.
    pub fn muck_cards_in_play(&mut self)
        requires
            old(self).seats@.len() <= 256,
        ensures
            ({
                let n = old(self).seats@.len();
                let (boxes, thrown, entries) = mucking(old(self).boxes(), n, old(self).button as nat, n);
                &&& boxes_are(old(self).seats@, final(self).seats@, boxes)
                &&& forall|j: int| 0 <= j < n ==> (#[trigger] final(self).seats@[j]).cards.dealt@.len() == 0
                &&& final(self).board@.len() == 0
                &&& final(self).muck@ == old(self).muck@ + thrown + old(self).board@
                &&& final(self).event_log@ == old(self).event_log@ + entries + seq![
                    TableAction::MuckCards(bard_of(old(self).board@)),
                ]
                &&& *final(self) == (Table {
                    seats: final(self).seats,
                    board: final(self).board,
                    muck: final(self).muck,
                    event_log: final(self).event_log,
                    ..*old(self)
                })
            }),
            final(self).cards_at_table() == old(self).cards_at_table(),
    {
        self.muck_players();
        self.muck_board();
    }

    /// Resets the table after a hand: the reset is logged, every card in
    /// play goes to the muck, the seats are reset for a new hand, the muck
    /// goes back into the deck, which is put in deck order and audited
    /// (logged), the bet is cleared and the noted hole cards forgotten.
    pub fn reset(&mut self)
        requires
            old(self).seats@.len() <= 256,
        ensures
            ({
                let n = old(self).seats@.len();
                let (boxes, thrown, entries) = mucking(old(self).boxes(), n, old(self).button as nat, n);
                &&& final(self).seats@.len() == n
                &&& forall|j: int|
                    0 <= j < n ==> (#[trigger] final(self).seats@[j]).player == crate::casino::table::seats::state_reset(
                        old(self).seats@[j],
                    ).player && final(self).seats@[j].cards.dealt@.len() == 0
                        && final(self).seats@[j].cards.slots == old(self).seats@[j].cards.slots
                        && final(self).seats@[j].bet_level_when_last_acted
                        == old(self).seats@[j].bet_level_when_last_acted
                &&& final(self).event_log@ == old(self).event_log@ + seq![TableAction::ResetTable] + entries
                    + seq![
                    TableAction::MuckCards(bard_of(old(self).board@)),
                    deck_audit(distinct_in_order(final(self).deck@)),
                ]
            }),
            in_deck_order(final(self).deck@),
            final(self).deck@.to_multiset() == old(self).cards_at_table(),
            final(self).board@.len() == 0 && final(self).muck@.len() == 0,
            final(self).bet == 0,
            final(self).dealt_hole_cards@.len() == 0,
            final(self).cards_at_table() == old(self).cards_at_table(),
            final(self).chips_on_table() == old(self).chips_on_table(),
            old(self).wf() && crate::casino::table::seats::bets(old(self).seats@) == 0 ==> final(self).wf(),
            *final(self) == (Table {
                seats: final(self).seats,
                deck: final(self).deck,
                board: final(self).board,
                muck: final(self).muck,
                bet: 0,
                dealt_hole_cards: final(self).dealt_hole_cards,
                event_log: final(self).event_log,
                ..*old(self)
            }),
    {
        let ghost before = *self;
        self.log(TableAction::ResetTable);
        self.muck_cards_in_play();
        let ghost mucked = *self;
        self.seats.reset_state();
        proof {
            assert(seat_cards(self.seats@) == seat_cards(mucked.seats@)) by {
                lemma_seat_cards_same_cards(mucked.seats@, self.seats@);
            }
            lemma_holdings_same_stacks(mucked.seats@, self.seats@);
            lemma_holdings_same_stacks(before.seats@, mucked.seats@);
        }
        let mut gathered: Vec<Card> = Vec::new();
        std::mem::swap(&mut gathered, &mut self.muck);
        let ghost deck_before = self.deck@;
        let ghost gathered_cards = gathered@;
        self.deck.append(&mut gathered);
        sort_cards(&mut self.deck);
        let distinct = count_distinct(&self.deck);
        let audit = if distinct < 52 {
            TableAction::NotEnoughCards
        } else if distinct > 52 {
            TableAction::TooManyCards
        } else {
            TableAction::DeckPassesAudit
        };
        self.log(audit);
        self.bet = 0;
        self.dealt_hole_cards = Vec::new();
        proof {
            broadcast use vstd::multiset::group_multiset_axioms;

            vstd::seq_lib::lemma_multiset_commutative(deck_before, gathered_cards);
            assert(self.board@.to_multiset() =~= Multiset::<Card>::empty()) by {
                assert(self.board@.to_multiset().len() == 0);
            }
            assert(self.muck@.to_multiset() =~= Multiset::<Card>::empty()) by {
                assert(self.muck@.to_multiset().len() == 0);
            }
            lemma_seat_cards_empty(self.seats@);
            assert(self.deck@.to_multiset() =~= before.cards_at_table());
            assert(self.cards_at_table() =~= before.cards_at_table());
            let n = before.seats@.len();
            let (boxes, thrown, entries) = mucking(before.boxes(), n, before.button as nat, n);
            assert(self.event_log@ =~= before.event_log@ + seq![TableAction::ResetTable] + entries + seq![
                TableAction::MuckCards(bard_of(before.board@)),
                deck_audit(distinct_in_order(self.deck@)),
            ]);
            if before.wf() && crate::casino::table::seats::bets(before.seats@) == 0 {
                crate::casino::table::seats::lemma_bets_zero(before.seats@);
                assert forall|j: int| 0 <= j < self.seats@.len() implies (#[trigger] self.seats@[j]).player.wf() by {
                    assert(before.seats@[j].player.wf());
                    assert(before.seats@[j].player.bet == 0);
                }
            }
        }
    }
}

/// Seats holding the same cards hold the same cards in all.
pub proof fn lemma_seat_cards_same_cards(s: Seq<Seat>, t: Seq<Seat>)
    requires
        s.len() == t.len(),
        forall|j: int| 0 <= j < s.len() ==> (#[trigger] s[j]).cards == t[j].cards,
    ensures
        seat_cards(s) == seat_cards(t),
    decreases s.len(),
{
    if s.len() > 0 {
        lemma_seat_cards_same_cards(s.drop_last(), t.drop_last());
    }
}

/// Seats with empty boxes hold no cards.
pub proof fn lemma_seat_cards_empty(s: Seq<Seat>)
    requires
        forall|j: int| 0 <= j < s.len() ==> (#[trigger] s[j]).cards.dealt@.len() == 0,
    ensures
        seat_cards(s) == Multiset::<Card>::empty(),
    decreases s.len(),
{
    broadcast use vstd::multiset::group_multiset_axioms;

    if s.len() > 0 {
        lemma_seat_cards_empty(s.drop_last());
        assert(s.last().cards.dealt@.to_multiset() =~= Multiset::<Card>::empty()) by {
            assert(s.last().cards.dealt@.to_multiset().len() == 0);
        }
        assert(seat_cards(s) =~= Multiset::<Card>::empty());
    }
}

/// Seats whose players keep their stacks and bets hold the same chips.
pub proof fn lemma_holdings_same_stacks(s: Seq<Seat>, t: Seq<Seat>)
    requires
        s.len() == t.len(),
        forall|j: int| 0 <= j < s.len() ==> (#[trigger] s[j]).player.holdings() == t[j].player.holdings(),
    ensures
        holdings(s) == holdings(t),
    decreases s.len(),
{
    if s.len() > 0 {
        lemma_holdings_same_stacks(s.drop_last(), t.drop_last());
    }
}

} // verus!
