//! The transition surface of a table: the actions legal for a seat, and the
//! dispatch of a chosen action to the matching handler.
use vstd::prelude::*;

use crate::casino::action::{PlayerAction, TableAction};
use crate::casino::state::PlayerState;
use crate::casino::table::actions::{
    all_in_step, call_step, lemma_outcomes_answer_results, saturating_diff, stack_of, wager_step,
};
use crate::casino::table::seats::max_bet;
use crate::casino::table::Table;
use crate::error::PKError;

verus! {

/// A handler's answer with the amount dropped.
pub open spec fn unit_of(r: Result<usize, PKError>) -> Result<(), PKError> {
    match r {
        Ok(_) => Ok(()),
        Err(e) => Err(e),
    }
}

impl Table {
    /// The actions offered to `seat` before each is tried: none for a seat
    /// past the end of the ring, out of the hand, all-in or with an empty
    /// stack; facing nothing a check, then an opening bet of the minimum
    /// when there is no bet and the seat holds it, or a raise to the
    /// minimum when a bet stands and a raise is legal; facing a bet a fold
    /// and a call, then the minimum raise when one is legal; and last the
    /// all-in.
    pub open spec fn candidate_actions_spec(&self, seat: u8) -> Seq<PlayerAction> {
        if seat >= self.seats@.len() {
            Seq::empty()
        } else {
            let p = self.seats@[seat as int].player;
            if !p.state.is_in_hand() || p.all_in() || p.chips == 0 {
                Seq::empty()
            } else {
                let to_call = self.to_call_spec(seat);
                let stack = stack_of(p);
                let min_bet = self.min_raise_spec();
                let mrt = self.min_raise_to_spec();
                let can_raise = self.raise_error(seat, mrt) is None;
                let choices = if to_call == 0 {
                    seq![PlayerAction::Check] + if self.bet == 0 {
                        if stack >= min_bet {
                            seq![PlayerAction::Bet(min_bet)]
                        } else {
                            Seq::empty()
                        }
                    } else if can_raise {
                        seq![PlayerAction::Raise(mrt)]
                    } else {
                        Seq::empty()
                    }
                } else {
                    seq![PlayerAction::Fold, PlayerAction::Call] + if can_raise {
                        seq![PlayerAction::Raise(mrt)]
                    } else {
                        Seq::empty()
                    }
                };
                choices + seq![PlayerAction::AllIn]
            }
        }
    }

    /// What `apply_action` answers for `action` by `seat` when it is the
    /// seat's turn.
    pub open spec fn in_turn_result(before: Table, seat: u8, action: PlayerAction) -> Result<(), PKError> {
        match action {
            PlayerAction::Fold => unit_of(Table::fold_result(before, seat)),
            PlayerAction::Check => unit_of(Table::check_result(before, seat)),
            PlayerAction::Call => if before.to_call_spec(seat) == 0 {
                unit_of(Table::check_result(before, seat))
            } else {
                unit_of(Table::call_result(before, seat))
            },
            PlayerAction::AllIn => unit_of(Table::all_in_result(before, seat)),
            PlayerAction::Bet(n) => unit_of(Table::wager_result(before, seat, PlayerState::Bet(n))),
            PlayerAction::Raise(n) => unit_of(Table::wager_result(before, seat, PlayerState::Raise(n))),
        }
    }

    /// The actions of `s` that `seat` would have accepted on its turn, in
    /// order.
    pub open spec fn accepted_only(before: Table, seat: u8, s: Seq<PlayerAction>) -> Seq<PlayerAction>
        decreases s.len(),
    {
        if s.len() == 0 {
            Seq::empty()
        } else {
            let rest = Table::accepted_only(before, seat, s.drop_last());
            if Table::in_turn_result(before, seat, s.last()) is Ok {
                rest.push(s.last())
            } else {
                rest
            }
        }
    }

    /// The actions legal for `seat`, as `legal_actions` lists them: those
    /// offered (see `candidate_actions_spec`) that the seat's turn would
    /// accept. A seat not active is offered nothing it could do.
    pub open spec fn legal_actions_spec(&self, seat: u8) -> Seq<PlayerAction> {
        Table::accepted_only(*self, seat, self.candidate_actions_spec(seat))
    }

    /// What `apply_action` answers for `action` by `seat`: out of turn the
    /// refusal naming the attempt; otherwise the answer of the handler the
    /// action goes to, a call with nothing to call going to the check.
    pub open spec fn action_result(before: Table, seat: u8, action: PlayerAction) -> Result<(), PKError> {
        let in_turn = seat == before.next_to_act_spec();
        match action {
            PlayerAction::Fold => if in_turn {
                unit_of(Table::fold_result(before, seat))
            } else {
                Err(
                    PKError::TableActionOutOfOrder(
                        TableAction::InvalidPlayerAction(seat, PlayerState::Fold),
                    ),
                )
            },
            PlayerAction::Check => if in_turn {
                unit_of(Table::check_result(before, seat))
            } else {
                Err(
                    PKError::TableActionOutOfOrder(
                        TableAction::InvalidPlayerAction(seat, PlayerState::Check),
                    ),
                )
            },
            PlayerAction::Call => if before.to_call_spec(seat) == 0 {
                if in_turn {
                    unit_of(Table::check_result(before, seat))
                } else {
                    Err(
                        PKError::TableActionOutOfOrder(
                            TableAction::InvalidPlayerAction(seat, PlayerState::Check),
                        ),
                    )
                }
            } else if in_turn {
                unit_of(Table::call_result(before, seat))
            } else {
                Err(
                    PKError::TableActionOutOfOrder(
                        TableAction::InvalidPlayerAction(seat, PlayerState::Call(0)),
                    ),
                )
            },
            PlayerAction::AllIn => if in_turn {
                unit_of(Table::all_in_result(before, seat))
            } else {
                Err(
                    PKError::TableActionOutOfOrder(
                        TableAction::InvalidPlayerAction(
                            seat,
                            PlayerState::AllIn(before.max_raise_spec(seat) as usize),
                        ),
                    ),
                )
            },
            PlayerAction::Bet(n) => if in_turn {
                unit_of(Table::wager_result(before, seat, PlayerState::Bet(n)))
            } else {
                Err(
                    PKError::TableActionOutOfOrder(
                        TableAction::InvalidPlayerAction(seat, PlayerState::Bet(n)),
                    ),
                )
            },
            PlayerAction::Raise(n) => if in_turn {
                unit_of(Table::wager_result(before, seat, PlayerState::Raise(n)))
            } else {
                Err(
                    PKError::TableActionOutOfOrder(
                        TableAction::InvalidPlayerAction(seat, PlayerState::Raise(n)),
                    ),
                )
            },
        }
    }

    /// The table that `apply_action` leaves for `action` by `seat`, with the
    /// handler's own answer `inner`: the outcome of the handler the action
    /// goes to (a call with nothing to call going to the check), or out of
    /// turn the refusal naming the attempt.
    pub open spec fn action_outcome(
        before: Table,
        seat: u8,
        action: PlayerAction,
        after: Table,
        inner: Result<usize, PKError>,
    ) -> bool {
        let in_turn = seat == before.next_to_act_spec();
        match action {
            PlayerAction::Fold => if in_turn {
                Table::fold_outcome(before, seat, after, inner)
            } else {
                Table::refused_out_of_turn(before, after, inner, TableAction::InvalidPlayerAction(seat, PlayerState::Fold))
            },
            PlayerAction::Check => if in_turn {
                Table::check_outcome(before, seat, after, inner)
            } else {
                Table::refused_out_of_turn(before, after, inner, TableAction::InvalidPlayerAction(seat, PlayerState::Check))
            },
            PlayerAction::Call => if before.to_call_spec(seat) == 0 {
                if in_turn {
                    Table::check_outcome(before, seat, after, inner)
                } else {
                    Table::refused_out_of_turn(before, after, inner, TableAction::InvalidPlayerAction(seat, PlayerState::Check))
                }
            } else if in_turn {
                Table::call_outcome(before, seat, after, inner)
            } else {
                Table::refused_out_of_turn(before, after, inner, TableAction::InvalidPlayerAction(seat, PlayerState::Call(0)))
            },
            PlayerAction::AllIn => if in_turn {
                Table::all_in_outcome(before, seat, after, inner)
            } else {
                Table::refused_out_of_turn(
                    before,
                    after,
                    inner,
                    TableAction::InvalidPlayerAction(seat, PlayerState::AllIn(before.max_raise_spec(seat) as usize)),
                )
            },
            PlayerAction::Bet(n) => if in_turn {
                Table::wager_outcome(before, seat, PlayerState::Bet(n), after, inner)
            } else {
                Table::refused_out_of_turn(before, after, inner, TableAction::InvalidPlayerAction(seat, PlayerState::Bet(n)))
            },
            PlayerAction::Raise(n) => if in_turn {
                Table::wager_outcome(before, seat, PlayerState::Raise(n), after, inner)
            } else {
                Table::refused_out_of_turn(before, after, inner, TableAction::InvalidPlayerAction(seat, PlayerState::Raise(n)))
            },
        }
    }

    /// Whether `seat` would have `action` accepted on its turn.
    fn accepts(&self, seat: u8, action: PlayerAction) -> (b: bool)
        requires
            self.wf(),
        ensures
            b == (Table::in_turn_result(*self, seat, action) is Ok),
    {
        if (seat as usize) >= self.seats.0.len() {
            return false;
        }
        let p = &self.seats.0[seat as usize].player;
        proof {
            assert(self.seats@[seat as int].player.wf());
        }
        let stack = p.chips + p.bet;
        let active = p.state.is_active();
        let check_ok = p.bet >= self.seats.current_bet() && active && p.state.can_given(&PlayerState::Check);
        match action {
            PlayerAction::Fold => active,
            PlayerAction::Check => check_ok,
            PlayerAction::Call => {
                if self.to_call(seat) == 0 {
                    check_ok
                } else {
                    let to_call = if self.bet > p.bet {
                        self.bet - p.bet
                    } else {
                        0
                    };
                    if p.chips < to_call {
                        !p.is_all_in() && stack > 0 && stack > p.bet && active
                    } else {
                        self.bet > 0 && self.bet <= stack && active && self.bet > p.bet
                    }
                }
            },
            PlayerAction::AllIn => !p.is_all_in() && stack > 0 && stack > p.bet && active,
            PlayerAction::Bet(n) => self.wager_accepted(seat, n),
            PlayerAction::Raise(n) => self.wager_accepted(seat, n),
        }
    }

    /// Whether a wager to `amount` by `seat` passes both the table's and the
    /// player's checks.
    fn wager_accepted(&self, seat: u8, amount: usize) -> (b: bool)
        requires
            self.wf(),
            seat < self.seats@.len(),
        ensures
            b == (Table::wager_result(*self, seat, PlayerState::Bet(amount)) is Ok),
            b == (Table::wager_result(*self, seat, PlayerState::Raise(amount)) is Ok),
    {
        let p = &self.seats.0[seat as usize].player;
        proof {
            assert(self.seats@[seat as int].player.wf());
        }
        let stack = p.chips + p.bet;
        if amount < stack {
            if amount < self.min_raise_to() {
                return false;
            }
        }
        amount > 0 && amount <= stack && p.state.is_active() && amount > p.bet
    }

    /// The actions offered to `seat_id` before each is tried.
    fn candidate_actions(&self, seat_id: u8) -> (v: Vec<PlayerAction>)
        requires
            self.wf(),
        ensures
            v@ == self.candidate_actions_spec(seat_id),
    {
        let mut actions: Vec<PlayerAction> = Vec::new();
        if (seat_id as usize) >= self.seats.0.len() {
            return actions;
        }
        let player = &self.seats.0[seat_id as usize].player;
        proof {
            assert(self.seats@[seat_id as int].player.wf());
        }
        if !player.is_in_hand() || player.is_all_in() || player.chips == 0 {
            return actions;
        }
        let to_call = self.to_call(seat_id);
        let stack = player.total_chip_count();
        let min_bet = self.min_raise();
        let raise_bounds = self.raise_bounds(seat_id);
        if to_call == 0 {
            actions.push(PlayerAction::Check);
            if self.bet == 0 {
                if stack >= min_bet {
                    actions.push(PlayerAction::Bet(min_bet));
                }
            } else {
                match raise_bounds {
                    Some((min_raise_to, _)) => {
                        actions.push(PlayerAction::Raise(min_raise_to));
                    },
                    None => {},
                }
            }
        } else {
            actions.push(PlayerAction::Fold);
            actions.push(PlayerAction::Call);
            match raise_bounds {
                Some((min_raise_to, _)) => {
                    actions.push(PlayerAction::Raise(min_raise_to));
                },
                None => {},
            }
        }
        if stack > 0 {
            actions.push(PlayerAction::AllIn);
        }
        proof {
            assert(actions@ =~= self.candidate_actions_spec(seat_id));
        }
        actions
    }

    /// The actions legal for `seat_id` in the current betting state, each
    /// bet or raise at its minimum size: those offered that the seat's turn
    /// would accept. Nothing is changed.
    pub fn legal_actions(&self, seat_id: u8) -> (v: Vec<PlayerAction>)
        requires
            self.wf(),
        ensures
            v@ == self.legal_actions_spec(seat_id),
    {
        let offered = self.candidate_actions(seat_id);
        let mut actions: Vec<PlayerAction> = Vec::new();
        let mut i: usize = 0;
        while i < offered.len()
            invariant
                self.wf(),
                i <= offered@.len(),
                actions@ == Table::accepted_only(*self, seat_id, offered@.subrange(0, i as int)),
            decreases offered@.len() - i,
        {
            let a = offered[i];
            proof {
                assert(offered@.subrange(0, i + 1).drop_last() =~= offered@.subrange(0, i as int));
            }
            if self.accepts(seat_id, a) {
                actions.push(a);
            }
            i = i + 1;
        }
        proof {
            assert(offered@.subrange(0, offered@.len() as int) =~= offered@);
        }
        actions
    }

    /// Applies `action` for `seat` through the matching handler; a call
    /// with nothing to call is a check.
    pub fn apply_action(&mut self, seat: u8, action: PlayerAction) -> (r: Result<(), PKError>)
        requires
            old(self).wf(),
            old(self).seats@.len() > 0,
        ensures
            final(self).wf(),
            final(self).seats@.len() == old(self).seats@.len(),
            final(self).chips_on_table() == old(self).chips_on_table(),
            r == Table::action_result(*old(self), seat, action),
            exists|inner: Result<usize, PKError>|
                #[trigger] Table::action_outcome(*old(self), seat, action, *final(self), inner) && r == unit_of(inner),
    {
        let ghost before = *self;
        let inner = match action {
            PlayerAction::Fold => self.act_fold(seat),
            PlayerAction::Check => self.act_check(seat),
            PlayerAction::Call => {
                if self.to_call(seat) == 0 {
                    self.act_check(seat)
                } else {
                    self.act_call(seat)
                }
            },
            PlayerAction::AllIn => self.act_all_in(seat),
            PlayerAction::Bet(n) => self.act_bet(seat, n),
            PlayerAction::Raise(n) => self.act_raise(seat, n),
        };
        proof {
            lemma_outcomes_answer_results(before, seat, *self, inner);
            assert(Table::action_outcome(before, seat, action, *self, inner));
        }
        match inner {
            Ok(_) => Ok(()),
            Err(e) => Err(e),
        }
    }
}

/// Whether `action` is a move the menu of legal actions offers `seat`, at
/// its minimum size: facing nothing a check, facing a bet a fold or a call,
/// an opening bet of the minimum when no bet stands, a raise to the minimum
/// when one does, and the all-in.
pub open spec fn on_the_menu(t: Table, seat: u8, action: PlayerAction) -> bool {
    match action {
        PlayerAction::Check => t.to_call_spec(seat) == 0,
        PlayerAction::Fold => t.to_call_spec(seat) > 0,
        PlayerAction::Call => t.to_call_spec(seat) > 0,
        PlayerAction::AllIn => true,
        PlayerAction::Bet(n) => t.bet == 0 && n == t.min_raise_spec(),
        PlayerAction::Raise(n) => t.bet > 0 && n == t.min_raise_to_spec(),
    }
}

/// Accepted actions that are offered are kept.
proof fn lemma_accepted_only_keeps(t: Table, seat: u8, s: Seq<PlayerAction>, a: PlayerAction)
    requires
        s.contains(a),
        Table::in_turn_result(t, seat, a) is Ok,
    ensures
        Table::accepted_only(t, seat, s).contains(a),
    decreases s.len(),
{
    let rest = Table::accepted_only(t, seat, s.drop_last());
    if s.last() == a {
        assert(Table::accepted_only(t, seat, s) == rest.push(a));
        assert(rest.push(a)[rest.len() as int] == a);
    } else {
        let k = choose|k: int| 0 <= k < s.len() && s[k] == a;
        assert(k < s.len() - 1);
        assert(s.drop_last()[k] == a);
        lemma_accepted_only_keeps(t, seat, s.drop_last(), a);
        let j = choose|j: int| 0 <= j < rest.len() && rest[j] == a;
        if Table::in_turn_result(t, seat, s.last()) is Ok {
            assert(rest.push(s.last())[j] == a);
        }
    }
}

/// Every move of the menu that the seat's turn would accept is listed:
/// for a seat neither all-in nor out of chips, an accepted check, fold,
/// call, all-in, opening bet of the minimum or raise to the minimum is
/// among its legal actions.
pub proof fn lemma_legal_actions_complete(t: Table, seat: u8, action: PlayerAction)
    requires
        t.wf(),
        seat < t.seats@.len(),
        !t.seats@[seat as int].player.all_in(),
        t.seats@[seat as int].player.chips > 0,
        on_the_menu(t, seat, action),
        Table::in_turn_result(t, seat, action) is Ok,
    ensures
        t.legal_actions_spec(seat).contains(action),
{
    let p = t.seats@[seat as int].player;
    let c = t.candidate_actions_spec(seat);
    assert(p.wf());
    assert(p.state.is_in_hand());
    let to_call = t.to_call_spec(seat);
    let mrt = t.min_raise_to_spec();
    let tail = seq![PlayerAction::AllIn];
    match action {
        PlayerAction::AllIn => {
            assert(c[c.len() - 1] == PlayerAction::AllIn);
        },
        PlayerAction::Check => {
            assert(c[0] == PlayerAction::Check);
        },
        PlayerAction::Fold => {
            assert(c[0] == PlayerAction::Fold);
        },
        PlayerAction::Call => {
            assert(c[1] == PlayerAction::Call);
        },
        PlayerAction::Bet(n) => {
            assert(stack_of(p) >= t.min_raise_spec());
            assert(c[1] == PlayerAction::Bet(n));
        },
        PlayerAction::Raise(n) => {
            assert(t.raise_error(seat, mrt) is None);
            if to_call == 0 {
                assert(c[1] == PlayerAction::Raise(n));
            } else {
                assert(c[2] == PlayerAction::Raise(n));
            }
        },
    }
    assert(c.contains(action));
    lemma_accepted_only_keeps(t, seat, c, action);
}

/// Every action kept by `accepted_only` is one its turn accepts.
proof fn lemma_accepted_only_accepts(t: Table, seat: u8, s: Seq<PlayerAction>, a: PlayerAction)
    requires
        Table::accepted_only(t, seat, s).contains(a),
    ensures
        Table::in_turn_result(t, seat, a) is Ok,
    decreases s.len(),
{
    if s.len() > 0 {
        let rest = Table::accepted_only(t, seat, s.drop_last());
        if Table::in_turn_result(t, seat, s.last()) is Ok && a == s.last() {
        } else if Table::in_turn_result(t, seat, s.last()) is Ok {
            let k = choose|k: int| 0 <= k < rest.push(s.last()).len() && rest.push(s.last())[k] == a;
            assert(k < rest.len());
            assert(rest[k] == a);
            lemma_accepted_only_accepts(t, seat, s.drop_last(), a);
        } else {
            lemma_accepted_only_accepts(t, seat, s.drop_last(), a);
        }
    }
}

/// Every action that `legal_actions` lists for the seat whose turn it is
/// is accepted by `apply_action`.
pub proof fn lemma_legal_actions_are_accepted(t: Table, seat: u8, action: PlayerAction)
    requires
        t.wf(),
        t.seats@.len() > 0,
        seat == t.next_to_act_spec(),
        t.legal_actions_spec(seat).contains(action),
    ensures
        Table::action_result(t, seat, action) is Ok,
{
    lemma_accepted_only_accepts(t, seat, t.candidate_actions_spec(seat), action);
}

} // verus!
