//! Many tables at once, each known by its id, driven by a queue of events.
use std::collections::HashMap;
use vstd::prelude::*;

use crate::casino::action::TableAction;
use crate::casino::game::ForcedBets;
use crate::casino::state::PlayerState;
use crate::casino::table::seats::{holdings, players_wf, Seats};
use crate::casino::table::showdown::{committed, showdown_result};
use crate::casino::table::transition::unit_of;
use crate::casino::table::winnings::{HandRank, Winnings};
use crate::casino::table::Table;
use crate::error::PKError;

verus! {

broadcast use vstd::std_specs::hash::group_hash_axioms;

/// Something to do at one of the tables.
#[derive(Clone, Debug, PartialEq, Eq)]
pub enum TableEvent {
    ActBet { table_id: u128, seat: u8, amount: usize },
    ActRaise { table_id: u128, seat: u8, amount: usize },
    ActCall { table_id: u128, seat: u8 },
    ActCheck { table_id: u128, seat: u8 },
    ActFold { table_id: u128, seat: u8 },
    ActAllIn { table_id: u128, seat: u8 },
    DealCards { table_id: u128 },
    DealFlop { table_id: u128 },
    DealTurn { table_id: u128 },
    DealRiver { table_id: u128 },
    /// Settles the hand, each seat's hand ranked as given.
    EndHand { table_id: u128, ranks: Vec<HandRank> },
}

/// The id of the table an event is for.
pub open spec fn event_table(e: TableEvent) -> u128 {
    match e {
        TableEvent::ActBet { table_id, .. } => table_id,
        TableEvent::ActRaise { table_id, .. } => table_id,
        TableEvent::ActCall { table_id, .. } => table_id,
        TableEvent::ActCheck { table_id, .. } => table_id,
        TableEvent::ActFold { table_id, .. } => table_id,
        TableEvent::ActAllIn { table_id, .. } => table_id,
        TableEvent::DealCards { table_id } => table_id,
        TableEvent::DealFlop { table_id } => table_id,
        TableEvent::DealTurn { table_id } => table_id,
        TableEvent::DealRiver { table_id } => table_id,
        TableEvent::EndHand { table_id, .. } => table_id,
    }
}

/// Whether the event moves chips between players and the pot on a street.
pub open spec fn is_player_event(e: TableEvent) -> bool {
    e is ActBet || e is ActRaise || e is ActCall || e is ActCheck || e is ActFold || e is ActAllIn
}

/// What an event needs of the table it is for: a player's move or the deal
/// of hole cards needs a seat, and a settlement a rank for every seat.
pub open spec fn event_fits(t: Table, e: TableEvent) -> bool {
    &&& (is_player_event(e) || e is DealCards) ==> t.seats@.len() > 0
    &&& (e matches TableEvent::EndHand { ranks, .. } ==> ranks@.len() >= t.seats@.len())
}

/// What a player's move does to the table `before`, leaving `after`, the
/// handler answering `inner`: out of turn the refusal naming the attempt,
/// else the outcome of the move's own handler.
pub open spec fn move_outcome(before: Table, e: TableEvent, after: Table, inner: Result<usize, PKError>) -> bool {
    match e {
        TableEvent::ActBet { seat, amount, .. } => if seat == before.next_to_act_spec() {
            Table::wager_outcome(before, seat, PlayerState::Bet(amount), after, inner)
        } else {
            Table::refused_out_of_turn(before, after, inner, TableAction::InvalidPlayerAction(seat, PlayerState::Bet(amount)))
        },
        TableEvent::ActRaise { seat, amount, .. } => if seat == before.next_to_act_spec() {
            Table::wager_outcome(before, seat, PlayerState::Raise(amount), after, inner)
        } else {
            Table::refused_out_of_turn(before, after, inner, TableAction::InvalidPlayerAction(seat, PlayerState::Raise(amount)))
        },
        TableEvent::ActCall { seat, .. } => if seat == before.next_to_act_spec() {
            Table::call_outcome(before, seat, after, inner)
        } else {
            Table::refused_out_of_turn(before, after, inner, TableAction::InvalidPlayerAction(seat, PlayerState::Call(0)))
        },
        TableEvent::ActCheck { seat, .. } => if seat == before.next_to_act_spec() {
            Table::check_outcome(before, seat, after, inner)
        } else {
            Table::refused_out_of_turn(before, after, inner, TableAction::InvalidPlayerAction(seat, PlayerState::Check))
        },
        TableEvent::ActFold { seat, .. } => if seat == before.next_to_act_spec() {
            Table::fold_outcome(before, seat, after, inner)
        } else {
            Table::refused_out_of_turn(before, after, inner, TableAction::InvalidPlayerAction(seat, PlayerState::Fold))
        },
        TableEvent::ActAllIn { seat, .. } => if seat == before.next_to_act_spec() {
            Table::all_in_outcome(before, seat, after, inner)
        } else {
            Table::refused_out_of_turn(
                before,
                after,
                inner,
                TableAction::InvalidPlayerAction(seat, PlayerState::AllIn(before.max_raise_spec(seat) as usize)),
            )
        },
        _ => false,
    }
}

/// A settlement's answer with the winnings dropped.
pub open spec fn settled_answer(w: Result<Vec<Winnings>, PKError>) -> Result<(), PKError> {
    match w {
        Ok(_) => Ok(()),
        Err(e) => Err(e),
    }
}

/// What handling `e` does to the table `before` it is for, leaving `after`
/// and answering `r`: a move as its handler does it; a deal as the deal of
/// the hole cards, the flop, the turn or the river does it; a settlement as
/// the showdown does it, or, where its chips do not add up within the
/// machine's integers, `ChipAuditFailed` with the table as it was.
pub open spec fn event_outcome(before: Table, e: TableEvent, after: Table, r: Result<(), PKError>) -> bool {
    match e {
        TableEvent::DealCards { .. } => Table::hole_cards_outcome(before, after, r),
        TableEvent::DealFlop { .. } => Table::flop_outcome(before, after, r),
        TableEvent::DealTurn { .. } => Table::street_card_outcome(before, true, after, r),
        TableEvent::DealRiver { .. } => Table::street_card_outcome(before, false, after, r),
        TableEvent::EndHand { ranks, .. } => if settlement_total(before) > usize::MAX {
            r == Err::<(), PKError>(PKError::ChipAuditFailed) && after == before
        } else {
            exists|w: Result<Vec<Winnings>, PKError>|
                #[trigger] showdown_result(before, ranks@, w, after.chips_on_table()) && r == settled_answer(w)
                    && crate::casino::table::showdown::showdown_paid(before, ranks@, w, after.seats@)
        },
        _ => exists|inner: Result<usize, PKError>| #[trigger] move_outcome(before, e, after, inner) && r == unit_of(inner),
    }
}

/// What handling `e` does to the tables `m`, leaving `m2` and answering
/// `r`: `TableNotFound` with nothing changed when no table has the event's
/// id; else only that table changes, as `event_outcome` says.
#[verifier::opaque]
pub open spec fn handled(m: Map<u128, Table>, e: TableEvent, m2: Map<u128, Table>, r: Result<(), PKError>) -> bool {
    let id = event_table(e);
    if !m.contains_key(id) {
        r == Err::<(), PKError>(PKError::TableNotFound) && m2 == m
    } else {
        &&& m2.contains_key(id)
        &&& m2 == m.insert(id, m2[id])
        &&& event_outcome(m[id], e, m2[id], r)
    }
}

/// Whether `path` is the run of tables from `m0` as the last events of the
/// queue `q` are handled one by one, the last queued first, each accepted:
/// `path[i + 1]` is `path[i]` with the `i`th event from the end handled.
pub open spec fn handled_path(m0: Map<u128, Table>, q: Seq<TableEvent>, path: Seq<Map<u128, Table>>) -> bool {
    &&& path.len() >= 1
    &&& path.len() <= q.len() + 1
    &&& path[0] == m0
    &&& forall|i: int|
        0 <= i < path.len() - 1 ==> handled(#[trigger] path[i], q[q.len() - 1 - i], path[i + 1], Ok::<(), PKError>(()))
}

/// One more accepted event extends the run of tables.
proof fn lemma_path_push(m0: Map<u128, Table>, q: Seq<TableEvent>, path: Seq<Map<u128, Table>>, m: Map<u128, Table>)
    requires
        handled_path(m0, q, path),
        path.len() <= q.len(),
        handled(path.last(), q[q.len() - 1 - (path.len() - 1)], m, Ok::<(), PKError>(())),
    ensures
        handled_path(m0, q, path.push(m)),
{
    let p1 = path.push(m);
    assert forall|i: int| 0 <= i < p1.len() - 1 implies handled(
        #[trigger] p1[i],
        q[q.len() - 1 - i],
        p1[i + 1],
        Ok::<(), PKError>(()),
    ) by {
        if i < path.len() - 1 {
            assert(p1[i] == path[i] && p1[i + 1] == path[i + 1]);
        } else {
            assert(p1[i] == path.last());
        }
    }
}

/// A handler's answer with the amount dropped.
fn drop_amount(inner: Result<usize, PKError>) -> (r: Result<(), PKError>)
    ensures
        r == unit_of(inner),
{
    match inner {
        Ok(_) => Ok(()),
        Err(e) => Err(e),
    }
}

/// The tables by id, and the events waiting to be handled.
pub struct TableManager {
    pub tables: HashMap<u128, Table>,
    pub event_queue: Vec<TableEvent>,
}

/// The chips of a table, committed chips counted again, as settling a hand
/// adds them up.
pub open spec fn settlement_total(t: Table) -> nat {
    holdings(t.seats@) + (t.pot as nat) + committed(t.seats@)
}

/// Whether settling a hand at `t` adds its chips up within the machine's
/// integers.
pub fn settlement_fits(t: &Table) -> (b: bool)
    ensures
        b == (settlement_total(*t) <= usize::MAX),
{
    let n = t.seats.0.len();
    let mut total: usize = t.pot;
    let mut i: usize = 0;
    while i < n
        invariant
            n == t.seats@.len(),
            i <= n,
            total == holdings(t.seats@.subrange(0, i as int)) + (t.pot as nat) + committed(t.seats@.subrange(0, i as int)),
        decreases n - i,
    {
        let p = &t.seats.0[i].player;
        proof {
            assert(t.seats@.subrange(0, i + 1).drop_last() =~= t.seats@.subrange(0, i as int));
            crate::casino::table::seats::lemma_holdings_prefix(t.seats@, i + 1);
            crate::casino::table::showdown::lemma_committed_prefix(t.seats@, i + 1);
        }
        match total.checked_add(p.chips) {
            Some(x) => total = x,
            None => {
                proof {
                    crate::casino::table::seats::lemma_holdings_prefix(t.seats@, n as int);
                    crate::casino::table::showdown::lemma_committed_prefix(t.seats@, n as int);
                    assert(t.seats@.subrange(0, n as int) =~= t.seats@);
                }
                return false;
            },
        }
        match total.checked_add(p.bet) {
            Some(x) => total = x,
            None => {
                proof {
                    crate::casino::table::seats::lemma_holdings_prefix(t.seats@, n as int);
                    crate::casino::table::showdown::lemma_committed_prefix(t.seats@, n as int);
                    assert(t.seats@.subrange(0, n as int) =~= t.seats@);
                }
                return false;
            },
        }
        match total.checked_add(p.chips_in_play) {
            Some(x) => total = x,
            None => {
                proof {
                    crate::casino::table::seats::lemma_holdings_prefix(t.seats@, n as int);
                    crate::casino::table::showdown::lemma_committed_prefix(t.seats@, n as int);
                    assert(t.seats@.subrange(0, n as int) =~= t.seats@);
                }
                return false;
            },
        }
        i = i + 1;
    }
    proof {
        assert(t.seats@.subrange(0, n as int) =~= t.seats@);
    }
    true
}

/// The id of the table an event is for.
fn table_of(e: &TableEvent) -> (id: u128)
    ensures
        id == event_table(*e),
{
    match e {
        TableEvent::ActBet { table_id, .. } => *table_id,
        TableEvent::ActRaise { table_id, .. } => *table_id,
        TableEvent::ActCall { table_id, .. } => *table_id,
        TableEvent::ActCheck { table_id, .. } => *table_id,
        TableEvent::ActFold { table_id, .. } => *table_id,
        TableEvent::ActAllIn { table_id, .. } => *table_id,
        TableEvent::DealCards { table_id } => *table_id,
        TableEvent::DealFlop { table_id } => *table_id,
        TableEvent::DealTurn { table_id } => *table_id,
        TableEvent::DealRiver { table_id } => *table_id,
        TableEvent::EndHand { table_id, .. } => *table_id,
    }
}

impl TableManager {
    /// Every table is well formed.
    pub open spec fn wf(&self) -> bool {
        forall|id: u128| #[trigger] self.tables@.contains_key(id) ==> self.tables@[id].wf()
    }

    /// Every waiting event fits the table it is for, where there is one.
    pub open spec fn queue_fits(&self) -> bool {
        forall|k: int|
            0 <= k < self.event_queue@.len() ==> (self.tables@.contains_key(event_table(
                #[trigger] self.event_queue@[k],
            )) ==> event_fits(self.tables@[event_table(self.event_queue@[k])], self.event_queue@[k]))
    }

    /// No tables and no events.
    pub fn new() -> (m: TableManager)
        ensures
            m.tables@ == Map::<u128, Table>::empty(),
            m.event_queue@.len() == 0,
            m.wf(),
    {
        TableManager { tables: HashMap::new(), event_queue: Vec::new() }
    }

    /// Opens a no-limit hold'em table at `seats` with the forced bets
    /// `forced` and answers its id.
    pub fn create_table(&mut self, seats: Seats, forced_bets: ForcedBets) -> (id: u128)
        requires
            old(self).wf(),
            seats@.len() <= 255,
            players_wf(seats@),
            holdings(seats@) <= usize::MAX,
        ensures
            final(self).wf(),
            final(self).tables@.contains_key(id),
            final(self).tables@[id].id == id,
            final(self).tables@[id].seats == seats,
            final(self).tables@[id].forced == forced_bets,
            final(self).tables@.remove(id) == old(self).tables@.remove(id),
            final(self).event_queue == old(self).event_queue,
    {
        let table = Table::nlh_from_seats(seats, forced_bets);
        let id = table.id;
        self.tables.insert(id, table);
        proof {
            assert(final(self).tables@.remove(id) =~= old(self).tables@.remove(id));
        }
        id
    }

    /// Handles the events on the queue, the last queued first, until one is
    /// refused; that one's error is the answer and the events queued before
    /// it stay on the queue.
    pub fn process_events(&mut self) -> (r: Result<(), PKError>)
        requires
            old(self).wf(),
            old(self).queue_fits(),
        ensures
            final(self).wf(),
            final(self).tables@.dom() == old(self).tables@.dom(),
            final(self).event_queue@.len() <= old(self).event_queue@.len(),
            final(self).event_queue@ == old(self).event_queue@.subrange(0, final(self).event_queue@.len() as int),
            r is Ok ==> final(self).event_queue@.len() == 0,
            r is Err ==> final(self).event_queue@.len() < old(self).event_queue@.len(),
            exists|path: Seq<Map<u128, Table>>|
                {
                    &&& #[trigger] handled_path(old(self).tables@, old(self).event_queue@, path)
                    &&& r is Ok ==> path.len() == old(self).event_queue@.len() + 1 && path.last() == final(self).tables@
                    &&& r is Err ==> path.len() == old(self).event_queue@.len() - final(self).event_queue@.len()
                        && handled(
                        path.last(),
                        old(self).event_queue@[final(self).event_queue@.len() as int],
                        final(self).tables@,
                        r,
                    )
                },
    {
        let ghost queue = self.event_queue@;
        let ghost mut path: Seq<Map<u128, Table>> = seq![self.tables@];
        loop
            invariant
                self.wf(),
                self.queue_fits(),
                self.tables@.dom() == old(self).tables@.dom(),
                queue == old(self).event_queue@,
                self.event_queue@.len() <= queue.len(),
                self.event_queue@ == queue.subrange(0, self.event_queue@.len() as int),
                handled_path(old(self).tables@, queue, path),
                path.len() == queue.len() - self.event_queue@.len() + 1,
                path.last() == self.tables@,
            decreases self.event_queue@.len(),
        {
            let ghost before = self.event_queue@;
            let ghost mid = self.tables@;
            match self.event_queue.pop() {
                None => {
                    proof {
                        assert(path.len() == queue.len() + 1);
                    }
                    return Ok(());
                },
                Some(event) => {
                    proof {
                        assert(before[before.len() - 1] == event);
                        assert(self.event_queue@ =~= queue.subrange(0, self.event_queue@.len() as int));
                    }
                    let r = self.handle_event(&event);
                    proof {
                        assert(queue[queue.len() - 1 - (path.len() - 1)] == event);
                    }
                    match r {
                        Ok(u) => {
                            proof {
                                assert(path.last() == mid);
                                assert(handled(mid, event, self.tables@, r));
                                assert(r == Ok::<(), PKError>(u));
                                assert(u == ());
                                assert(r == Ok::<(), PKError>(()));
                                lemma_path_push(old(self).tables@, queue, path, self.tables@);
                                path = path.push(self.tables@);
                            }
                        },
                        Err(e) => {
                            proof {
                                assert(self.event_queue@.len() == before.len() - 1);
                                assert(queue[self.event_queue@.len() as int] == event);
                                assert(handled(path.last(), queue[self.event_queue@.len() as int], self.tables@, r));
                            }
                            return Err(e);
                        },
                    }
                },
            }
        }
    }

    /// Handles `event` at the table it is for: `TableNotFound` when there is
    /// no such table, else the table's own answer to the move, the deal or
    /// the settlement. A settlement whose chips do not add up within the
    /// machine's integers is refused with `ChipAuditFailed`, the table left
    /// as it was.
    fn handle_event(&mut self, event: &TableEvent) -> (r: Result<(), PKError>)
        requires
            old(self).wf(),
            old(self).queue_fits(),
            old(self).tables@.contains_key(event_table(*event)) ==> event_fits(
                old(self).tables@[event_table(*event)],
                *event,
            ),
        ensures
            final(self).wf(),
            final(self).queue_fits(),
            final(self).event_queue == old(self).event_queue,
            final(self).tables@.dom() == old(self).tables@.dom(),
            final(self).tables@.remove(event_table(*event)) == old(self).tables@.remove(event_table(*event)),
            !old(self).tables@.contains_key(event_table(*event)) ==> r == Err::<(), PKError>(PKError::TableNotFound),
            old(self).tables@.contains_key(event_table(*event)) ==> ({
                let before = old(self).tables@[event_table(*event)];
                let after = final(self).tables@[event_table(*event)];
                &&& after.seats@.len() == before.seats@.len()
                &&& !(*event is EndHand) ==> after.chips_on_table() == before.chips_on_table()
                &&& (*event is EndHand && settlement_total(before) > usize::MAX) ==> r == Err::<(), PKError>(
                    PKError::ChipAuditFailed,
                ) && after == before
            }),
            handled(old(self).tables@, *event, final(self).tables@, r),
    {
        let id = table_of(event);
        let mut table = match self.tables.remove(&id) {
            Some(t) => t,
            None => {
                proof {
                    assert(self.tables@ =~= old(self).tables@);
                    reveal(handled);
                }
                return Err(PKError::TableNotFound);
            },
        };
        let ghost before = table;
        let r: Result<(), PKError> = match event {
            TableEvent::ActBet { seat, amount, .. } => {
                let inner = table.act_bet(*seat, *amount);
                proof {
                    assert(move_outcome(before, *event, table, inner));
                }
                drop_amount(inner)
            },
            TableEvent::ActRaise { seat, amount, .. } => {
                let inner = table.act_raise(*seat, *amount);
                proof {
                    assert(move_outcome(before, *event, table, inner));
                }
                drop_amount(inner)
            },
            TableEvent::ActCall { seat, .. } => {
                let inner = table.act_call(*seat);
                proof {
                    assert(move_outcome(before, *event, table, inner));
                }
                drop_amount(inner)
            },
            TableEvent::ActCheck { seat, .. } => {
                let inner = table.act_check(*seat);
                proof {
                    assert(move_outcome(before, *event, table, inner));
                }
                drop_amount(inner)
            },
            TableEvent::ActFold { seat, .. } => {
                let inner = table.act_fold(*seat);
                proof {
                    assert(move_outcome(before, *event, table, inner));
                }
                drop_amount(inner)
            },
            TableEvent::ActAllIn { seat, .. } => {
                let inner = table.act_all_in(*seat);
                proof {
                    assert(move_outcome(before, *event, table, inner));
                }
                drop_amount(inner)
            },
            TableEvent::DealCards { .. } => table.deal_cards_to_seats(),
            TableEvent::DealFlop { .. } => table.deal_flop(),
            TableEvent::DealTurn { .. } => table.deal_turn(),
            TableEvent::DealRiver { .. } => table.deal_river(),
            TableEvent::EndHand { ranks, .. } => {
                if settlement_fits(&table) {
                    let w = table.end_hand(ranks);
                    proof {
                        assert(showdown_result(before, ranks@, w, table.chips_on_table()));
                        assert(crate::casino::table::showdown::showdown_paid(before, ranks@, w, table.seats@));
                    }
                    match w {
                        Ok(_) => Ok(()),
                        Err(e) => Err(e),
                    }
                } else {
                    Err(PKError::ChipAuditFailed)
                }
            },
        };
        proof {
            assert(event_outcome(before, *event, table, r));
        }
        self.tables.insert(id, table);
        proof {
            assert(self.tables@.remove(id) =~= old(self).tables@.remove(id));
            assert(self.tables@.dom() =~= old(self).tables@.dom());
            assert(self.tables@ =~= old(self).tables@.insert(id, self.tables@[id]));
            assert(old(self).tables@[id] == before);
            assert(self.tables@[id] == table);
            reveal(handled);
        }
        r
    }

    /// Puts `event` on the queue.
    pub fn queue_event(&mut self, event: TableEvent)
        ensures
            final(self).event_queue@ == old(self).event_queue@.push(event),
            final(self).tables == old(self).tables,
    {
        self.event_queue.push(event);
    }

    /// The table with the id `id`, if there is one.
    pub fn get_table(&self, id: u128) -> (r: Option<&Table>)
        ensures
            self.tables@.contains_key(id) <==> r is Some,
            r matches Some(t) ==> *t == self.tables@[id],
    {
        self.tables.get(&id)
    }

    /// Takes the table with the id `id` away.
    pub fn remove_table(&mut self, id: u128) -> (r: Option<Table>)
        ensures
            old(self).tables@.contains_key(id) <==> r is Some,
            r matches Some(t) ==> t == old(self).tables@[id],
            final(self).tables@ == old(self).tables@.remove(id),
            final(self).event_queue == old(self).event_queue,
    {
        self.tables.remove(&id)
    }
}

impl Default for TableManager {
    fn default() -> (m: TableManager)
        ensures
            m.tables@ == Map::<u128, Table>::empty(),
            m.event_queue@.len() == 0,
    {
        TableManager::new()
    }
}

} // verus!
