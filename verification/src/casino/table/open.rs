//! Opening a no-limit hold'em table around a ring of seats.
use vstd::prelude::*;

use crate::card::{bard_of, Bard, Card};
use crate::casino::action::TableAction;
use crate::casino::game::ForcedBets;
use crate::casino::table::player::new_uuid;
use crate::casino::table::seat::Seat;
use crate::casino::table::seats::{holdings, players_wf, Seats};
use crate::casino::table::{GamePhase, Table};

verus! {

/// The cards held by the occupied seats among the first `n`, in seat order.
pub open spec fn held_cards(s: Seq<Seat>, n: nat) -> Seq<Card>
    decreases n,
{
    if n == 0 {
        Seq::empty()
    } else if !s[n - 1].vacant() {
        held_cards(s, (n - 1) as nat) + s[n - 1].cards.dealt@
    } else {
        held_cards(s, (n - 1) as nat)
    }
}

/// The log entries of seating the first `n` seats: for each occupied seat
/// its player, then the cards it already holds, if any.
pub open spec fn seating_entries(s: Seq<Seat>, n: nat) -> Seq<TableAction>
    decreases n,
{
    if n == 0 {
        Seq::empty()
    } else {
        let prev = seating_entries(s, (n - 1) as nat);
        let x = s[n - 1];
        if x.vacant() {
            prev
        } else if x.cards.dealt@.len() > 0 {
            prev + seq![
                TableAction::PlayerSeated((n - 1) as u8, x.player.id),
                TableAction::Dealt((n - 1) as u8, bard_of(x.cards.dealt@)),
            ]
        } else {
            prev.push(TableAction::PlayerSeated((n - 1) as u8, x.player.id))
        }
    }
}

/// The cards of `deck` that are not among `cards`, in order.
pub fn without_cards(deck: &Vec<Card>, cards: &Vec<Card>) -> (r: Vec<Card>)
    ensures
        r@ == deck@.filter(|c: Card| !cards@.contains(c)),
{
    let mut kept: Vec<Card> = Vec::new();
    let mut i: usize = 0;
    while i < deck.len()
        invariant
            i <= deck@.len(),
            kept@ == deck@.subrange(0, i as int).filter(|c: Card| !cards@.contains(c)),
        decreases deck@.len() - i,
    {
        let c = deck[i];
        let mut found = false;
        let mut j: usize = 0;
        while j < cards.len()
            invariant
                j <= cards@.len(),
                found == cards@.subrange(0, j as int).contains(c),
            decreases cards@.len() - j,
        {
            if cards[j] == c {
                found = true;
            }
            proof {
                let pre = cards@.subrange(0, j as int);
                let nxt = cards@.subrange(0, j + 1);
                assert(nxt =~= pre.push(cards@[j as int]));
                if cards@[j as int] == c {
                    assert(nxt[j as int] == c);
                } else if pre.contains(c) {
                    let k = choose|k: int| 0 <= k < pre.len() && pre[k] == c;
                    assert(nxt[k] == c);
                } else {
                    assert forall|k: int| 0 <= k < nxt.len() implies nxt[k] != c by {
                        if k < j {
                            assert(nxt[k] == pre[k]);
                        }
                    }
                }
            }
            j = j + 1;
        }
        proof {
            assert(cards@.subrange(0, cards@.len() as int) =~= cards@);
            assert(deck@.subrange(0, i + 1) =~= deck@.subrange(0, i as int).push(c));
            deck@.subrange(0, i as int).lemma_filter_push(c, |x: Card| !cards@.contains(x));
        }
        if !found {
            kept.push(c);
        }
        i = i + 1;
    }
    proof {
        assert(deck@.subrange(0, deck@.len() as int) =~= deck@);
    }
    kept
}

impl Table {
    /// Opens a no-limit hold'em table around `seats` with the forced bets
    /// `forced`: a fresh random id (logged as the opening), every occupied
    /// seat's player logged as seated together with the cards it already
    /// holds, which are taken out of a fresh deck; the button at the first
    /// seat, a new hand, and nothing on the board, in the muck or in the
    /// pot.
    pub fn nlh_from_seats(seats: Seats, forced: ForcedBets) -> (t: Table)
        requires
            seats@.len() <= 255,
        ensures
            t.id != 0,
            t.name@ == "No Limit Hold'em Table"@,
            t.forced == forced,
            t.phase == GamePhase::NewHand,
            t.seats == seats,
            t.button == 0,
            t.deck@ == crate::card::fresh_deck_spec().filter(
                |c: Card| !held_cards(seats@, seats@.len()).contains(c),
            ),
            t.board@.len() == 0 && t.muck@.len() == 0,
            t.pot == 0 && t.bet == 0 && t.raise_increment == 0 && t.raises_this_street == 0,
            t.hand_chip_total == 0,
            t.dealt_hole_cards@.len() == 0,
            t.event_log@ == seq![TableAction::TableOpen(t.id)] + seating_entries(seats@, seats@.len()),
            players_wf(seats@) && holdings(seats@) <= usize::MAX ==> t.wf(),
    {
        let id = new_uuid();
        proof {
            crate::casino::table::player::lemma_fresh_id_not_nil(id);
        }
        let mut event_log: Vec<TableAction> = Vec::new();
        event_log.push(TableAction::TableOpen(id));
        let mut held: Vec<Card> = Vec::new();
        let mut i: usize = 0;
        while i < seats.0.len()
            invariant
                i <= seats@.len() <= 255,
                held@ == held_cards(seats@, i as nat),
                event_log@ == seq![TableAction::TableOpen(id)] + seating_entries(seats@, i as nat),
            decreases seats@.len() - i,
        {
            let seat = &seats.0[i];
            if !seat.is_empty() {
                let num = i as u8;
                event_log.push(TableAction::PlayerSeated(num, seat.player.id));
                if seat.cards.has_cards() {
                    let mut cards = seat.cards.copied();
                    let b = Bard::from_cards(&cards.dealt);
                    event_log.push(TableAction::Dealt(num, b));
                    held.append(&mut cards.dealt);
                }
            }
            i = i + 1;
            proof {
                assert(event_log@ =~= seq![TableAction::TableOpen(id)] + seating_entries(seats@, i as nat));
            }
        }
        let fresh = Card::fresh_deck();
        let deck = without_cards(&fresh, &held);
        proof {
            assert(fresh@ =~= crate::card::fresh_deck_spec());
        }
        Table {
            id,
            name: String::from_str("No Limit Hold'em Table"),
            forced,
            phase: GamePhase::NewHand,
            seats,
            button: 0,
            deck,
            board: Vec::new(),
            muck: Vec::new(),
            pot: 0,
            bet: 0,
            raise_increment: 0,
            event_log,
            hand_chip_total: 0,
            dealt_hole_cards: Vec::new(),
            raises_this_street: 0,
        }
    }
}

} // verus!
