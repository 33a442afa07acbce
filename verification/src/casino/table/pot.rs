//! Main and side pots: what each layer of the committed chips is worth and
//! which seats may win it.
use vstd::prelude::*;

use crate::casino::table::seat::Seat;
use crate::casino::table::seats::Seats;
use crate::casino::table::showdown::{committed, lemma_committed_prefix};

verus! {

/// One pot: its chips and the seats that can win it.
#[derive(Clone, Debug)]
pub struct PotInfo {
    pub amount: usize,
    pub eligible_seats: Vec<u8>,
}

/// The pots of a hand, the main pot first.
#[derive(Clone, Debug, Default)]
pub struct PotManager {
    pub pots: Vec<PotInfo>,
}

/// Whether `c` is the contribution of a seat still in the hand: its
/// number and the chips it committed.
pub open spec fn is_contribution(s: Seq<Seat>, c: (u8, usize)) -> bool {
    &&& (c.0 as int) < s.len()
    &&& s[c.0 as int].in_hand()
    &&& c.1 == s[c.0 as int].player.chips_in_play
}

/// Whether the contributions rise strictly, by chips and then by seat.
pub open spec fn by_level(c: Seq<(u8, usize)>) -> bool {
    forall|i: int, j: int|
        0 <= i < j < c.len() ==> (#[trigger] c[i]).1 < (#[trigger] c[j]).1 || (c[i].1 == c[j].1 && c[i].0 < c[j].0)
}

/// The chips below the `i`th contribution's level.
pub open spec fn level_below(c: Seq<(u8, usize)>, i: int) -> nat {
    if i <= 0 {
        0
    } else {
        c[i - 1].1 as nat
    }
}

/// The pot that the `i`th contribution opens: each seat from it on puts in
/// the step from the level below to its own, and those seats may win it.
pub open spec fn layer(c: Seq<(u8, usize)>, i: int) -> (nat, Seq<u8>) {
    (
        ((c[i].1 - level_below(c, i)) * (c.len() - i)) as nat,
        c.subrange(i, c.len() as int).map_values(|x: (u8, usize)| x.0),
    )
}

/// The pots opened by the contributions from the `i`th on: one for each
/// contribution above the level below it.
pub open spec fn layers(c: Seq<(u8, usize)>, i: int) -> Seq<(nat, Seq<u8>)>
    decreases c.len() - i,
{
    if i >= c.len() || i < 0 {
        Seq::empty()
    } else if c[i].1 > level_below(c, i) {
        seq![layer(c, i)] + layers(c, i + 1)
    } else {
        layers(c, i + 1)
    }
}

/// The chips of the contributions.
pub open spec fn contributed(c: Seq<(u8, usize)>) -> nat
    decreases c.len(),
{
    if c.len() == 0 {
        0
    } else {
        contributed(c.drop_last()) + (c.last().1 as nat)
    }
}

/// The chips committed by the seats still in the hand.
pub open spec fn in_hand_committed(s: Seq<Seat>) -> nat
    decreases s.len(),
{
    if s.len() == 0 {
        0
    } else if s.last().in_hand() {
        in_hand_committed(s.drop_last()) + (s.last().player.chips_in_play as nat)
    } else {
        in_hand_committed(s.drop_last())
    }
}

/// The chips of the pots.
pub open spec fn pots_total(l: Seq<(nat, Seq<u8>)>) -> nat
    decreases l.len(),
{
    if l.len() == 0 {
        0
    } else {
        l[0].0 + pots_total(l.drop_first())
    }
}

/// The amounts of the pots.
pub open spec fn pot_amounts(p: Seq<PotInfo>) -> nat
    decreases p.len(),
{
    if p.len() == 0 {
        0
    } else {
        pot_amounts(p.drop_last()) + (p.last().amount as nat)
    }
}

/// Whether the pots are those given as chips and seats.
pub open spec fn pots_are(p: Seq<PotInfo>, l: Seq<(nat, Seq<u8>)>) -> bool {
    &&& p.len() == l.len()
    &&& forall|k: int| 0 <= k < p.len() ==> (#[trigger] p[k]).amount == l[k].0 && p[k].eligible_seats@ == l[k].1
}

proof fn lemma_contributed_insert(c: Seq<(u8, usize)>, p: int, x: (u8, usize))
    requires
        0 <= p <= c.len(),
    ensures
        contributed(c.insert(p, x)) == contributed(c) + x.1,
    decreases c.len(),
{
    if p == c.len() {
        assert(c.insert(p, x).drop_last() =~= c);
    } else {
        let d = c.insert(p, x);
        assert(d.drop_last() =~= c.drop_last().insert(p, x));
        lemma_contributed_insert(c.drop_last(), p, x);
    }
}

proof fn lemma_contributed_split(c: Seq<(u8, usize)>, i: int)
    requires
        0 <= i <= c.len(),
    ensures
        contributed(c) == contributed(c.subrange(0, i)) + contributed(c.subrange(i, c.len() as int)),
    decreases c.len(),
{
    if i == c.len() {
        assert(c.subrange(0, i) =~= c);
        assert(c.subrange(i, c.len() as int).len() == 0);
    } else {
        lemma_contributed_split(c.drop_last(), i);
        assert(c.drop_last().subrange(0, i) =~= c.subrange(0, i));
        assert(c.subrange(i, c.len() as int).drop_last() =~= c.drop_last().subrange(i, c.drop_last().len() as int));
    }
}

proof fn lemma_contributed_floor(c: Seq<(u8, usize)>, lo: nat)
    requires
        forall|k: int| 0 <= k < c.len() ==> (#[trigger] c[k]).1 >= lo,
    ensures
        contributed(c) >= c.len() * lo,
    decreases c.len(),
{
    if c.len() > 0 {
        lemma_contributed_floor(c.drop_last(), lo);
        assert(c.len() * lo == (c.len() - 1) * lo + lo) by (nonlinear_arith);
    }
}

proof fn lemma_layers_total(c: Seq<(u8, usize)>, i: int)
    requires
        0 <= i <= c.len(),
        by_level(c),
    ensures
        pots_total(layers(c, i)) + (c.len() - i) * level_below(c, i) == contributed(c.subrange(i, c.len() as int)),
    decreases c.len() - i,
{
    let n = c.len() as int;
    if i == n {
        assert(c.subrange(i, n).len() == 0);
    } else {
        lemma_layers_total(c, i + 1);
        let rest = c.subrange(i, n);
        lemma_contributed_split(rest, 1);
        assert(rest.subrange(1, rest.len() as int) =~= c.subrange(i + 1, n));
        let one = rest.subrange(0, 1);
        assert(one.drop_last().len() == 0);
        assert(contributed(one.drop_last()) == 0);
        assert(one.last() == c[i]);
        assert(contributed(one) == c[i].1);
        let lb = level_below(c, i);
        let ci = c[i].1 as nat;
        if i > 0 {
            assert(c[i - 1].1 < c[i].1 || c[i - 1].1 == c[i].1);
        }
        assert(lb <= ci);
        if ci > lb {
            let l = layers(c, i);
            assert(l == seq![layer(c, i)] + layers(c, i + 1));
            assert(l.drop_first() =~= layers(c, i + 1));
            assert(pots_total(l) == (ci - lb) * (n - i) + pots_total(layers(c, i + 1)));
        }
        assert((ci - lb) * (n - i) + (n - i) * lb == (n - i) * ci) by (nonlinear_arith)
            requires
                ci >= lb,
        ;
        assert((n - i) * ci == ci + (n - i - 1) * ci) by (nonlinear_arith);
    }
}

proof fn lemma_pot_amounts(p: Seq<PotInfo>, l: Seq<(nat, Seq<u8>)>)
    requires
        pots_are(p, l),
    ensures
        pot_amounts(p) == pots_total(l),
    decreases p.len(),
{
    if p.len() > 0 {
        let l1 = l.drop_first();
        let p1 = p.drop_first();
        assert(pots_are(p1, l1));
        lemma_pot_amounts(p1, l1);
        lemma_pot_amounts_front(p);
    }
}

proof fn lemma_pot_amounts_front(p: Seq<PotInfo>)
    requires
        p.len() > 0,
    ensures
        pot_amounts(p) == p[0].amount + pot_amounts(p.drop_first()),
    decreases p.len(),
{
    if p.len() > 1 {
        lemma_pot_amounts_front(p.drop_last());
        assert(p.drop_last().drop_first() =~= p.drop_first().drop_last());
        assert(p.drop_first().last() == p.last());
        assert(p.drop_last()[0] == p[0]);
    } else {
        assert(p.drop_first().len() == 0);
        assert(p.drop_last().len() == 0);
        assert(pot_amounts(p.drop_last()) == 0);
        assert(pot_amounts(p.drop_first()) == 0);
    }
}

proof fn lemma_committed_push(s: Seq<Seat>, i: int)
    requires
        0 <= i < s.len(),
    ensures
        committed(s.subrange(0, i + 1)) == committed(s.subrange(0, i)) + s[i].player.chips_in_play,
{
    assert(s.subrange(0, i + 1).drop_last() =~= s.subrange(0, i));
}

impl PotManager {
    /// The pots of the hand at `seats`: the contributions of the seats still
    /// in the hand, ordered by chips (and by seat where they tie), are cut
    /// into layers; each contribution above the one before it opens a pot of
    /// the step between them from every seat from it on, and those seats
    /// are the ones that may win it.
    pub fn create_pots(seats: &Seats) -> (m: PotManager)
        requires
            seats@.len() <= 256,
            committed(seats@) <= usize::MAX,
        ensures
            exists|c: Seq<(u8, usize)>|
                {
                    &&& by_level(c)
                    &&& forall|x: (u8, usize)| #[trigger] c.contains(x) <==> is_contribution(seats@, x)
                    &&& pots_are(m.pots@, layers(c, 0))
                },
            pot_amounts(m.pots@) == in_hand_committed(seats@),
    {
        let n = seats.0.len();
        let mut c: Vec<(u8, usize)> = Vec::new();
        let mut i: usize = 0;
        while i < n
            invariant
                n == seats@.len() <= 256,
                i <= n,
                committed(seats@) <= usize::MAX,
                by_level(c@),
                forall|k: int| 0 <= k < c@.len() ==> (#[trigger] c@[k]).0 < i,
                forall|x: (u8, usize)| #[trigger] c@.contains(x) <==> (is_contribution(seats@, x) && (x.0 as int) < i),
                contributed(c@) == in_hand_committed(seats@.subrange(0, i as int)),
                in_hand_committed(seats@.subrange(0, i as int)) <= committed(seats@.subrange(0, i as int)),
            decreases n - i,
        {
            let seat = &seats.0[i];
            proof {
                lemma_committed_push(seats@, i as int);
                assert(seats@.subrange(0, i + 1).drop_last() =~= seats@.subrange(0, i as int));
            }
            if seat.is_in_hand() {
                let amount = seat.player.chips_in_play;
                let mut p: usize = 0;
                while p < c.len() && c[p].1 <= amount
                    invariant
                        p <= c@.len(),
                        forall|k: int| 0 <= k < p ==> (#[trigger] c@[k]).1 <= amount,
                    decreases c@.len() - p,
                {
                    p = p + 1;
                }
                let ghost old_c = c@;
                let x = (i as u8, amount);
                c.insert(p, x);
                proof {
                    lemma_contributed_insert(old_c, p as int, x);
                    assert forall|a: int, b: int| 0 <= a < b < c@.len() implies (#[trigger] c@[a]).1 < (
                    #[trigger] c@[b]).1 || (c@[a].1 == c@[b].1 && c@[a].0 < c@[b].0) by {
                        if b < p {
                        } else if b == p {
                            assert(c@[a] == old_c[a]);
                        } else if a < p {
                            assert(c@[b] == old_c[b - 1]);
                        } else if a == p {
                            assert(c@[b] == old_c[b - 1]);
                            if p < old_c.len() {
                                assert(old_c[p as int].1 > amount);
                                if b - 1 > p {
                                    assert(old_c[p as int].1 < old_c[b - 1].1 || old_c[p as int].1 == old_c[b - 1].1);
                                }
                            }
                        } else {
                        }
                    }
                    assert forall|x: (u8, usize)| #[trigger] c@.contains(x) <==> (is_contribution(seats@, x) && (x.0 as int)
                        < i + 1) by {
                        if c@.contains(x) {
                            let k = choose|k: int| 0 <= k < c@.len() && c@[k] == x;
                            if k < p {
                                assert(old_c[k] == x);
                                assert(old_c.contains(x));
                            } else if k > p {
                                assert(old_c[k - 1] == x);
                                assert(old_c.contains(x));
                            }
                        }
                        if is_contribution(seats@, x) && (x.0 as int) < i + 1 {
                            if (x.0 as int) < i {
                                assert(old_c.contains(x));
                                let k = choose|k: int| 0 <= k < old_c.len() && old_c[k] == x;
                                if k < p {
                                    assert(c@[k] == x);
                                } else {
                                    assert(c@[k + 1] == x);
                                }
                            } else {
                                assert(c@[p as int] == x);
                            }
                        }
                    }
                }
            } else {
                proof {
                    assert forall|x: (u8, usize)| #[trigger] c@.contains(x) <==> (is_contribution(seats@, x) && (x.0 as int)
                        < i + 1) by {
                        if is_contribution(seats@, x) && (x.0 as int) < i + 1 {
                            assert((x.0 as int) != i);
                        }
                    }
                }
            }
            i = i + 1;
        }
        proof {
            assert(seats@.subrange(0, n as int) =~= seats@);
            lemma_committed_prefix(seats@, n as int);
        }
        let ghost cs = c@;
        let ghost held = c@;
        let m = c.len();
        let mut pots: Vec<PotInfo> = Vec::new();
        let mut prev: usize = 0;
        let mut i: usize = 0;
        while i < m
            invariant
                m == cs.len(),
                c@ == cs,
                i <= m,
                by_level(cs),
                contributed(cs) <= usize::MAX,
                contributed(cs) == in_hand_committed(seats@),
                prev == level_below(cs, i as int),
                pots_are(pots@, layers(cs, 0).subrange(0, layers(cs, 0).len() - layers(cs, i as int).len())),
                layers(cs, 0).len() >= layers(cs, i as int).len(),
                layers(cs, 0).subrange(layers(cs, 0).len() - layers(cs, i as int).len(), layers(cs, 0).len() as int)
                    == layers(cs, i as int),
            decreases m - i,
        {
            let level = c[i].1;
            if level > prev {
                proof {
                    lemma_contributed_split(cs, i as int);
                    let suffix = cs.subrange(i as int, m as int);
                    assert forall|k: int| 0 <= k < suffix.len() implies (#[trigger] suffix[k]).1 >= level by {
                        if k > 0 {
                            assert(cs[i as int].1 < cs[i + k].1 || cs[i as int].1 == cs[i + k].1);
                        }
                    }
                    lemma_contributed_floor(suffix, level as nat);
                    assert((level - prev) * (m - i) <= level * (m - i)) by (nonlinear_arith)
                        requires
                            level > prev,
                            m > i,
                    ;
                }
                let size = (level - prev) * (m - i);
                let mut eligible: Vec<u8> = Vec::new();
                let mut j: usize = i;
                while j < m
                    invariant
                        i <= j <= m,
                        m == cs.len(),
                        c@ == cs,
                        eligible@ == cs.subrange(i as int, j as int).map_values(|x: (u8, usize)| x.0),
                    decreases m - j,
                {
                    eligible.push(c[j].0);
                    j = j + 1;
                    proof {
                        assert(eligible@ =~= cs.subrange(i as int, j as int).map_values(|x: (u8, usize)| x.0));
                    }
                }
                let ghost before = pots@;
                pots.push(PotInfo { amount: size, eligible_seats: eligible });
                proof {
                    let l0 = layers(cs, 0);
                    let li = layers(cs, i as int);
                    let lj = layers(cs, i + 1);
                    assert(li == seq![layer(cs, i as int)] + lj);
                    assert(l0.subrange(l0.len() - li.len(), l0.len() as int)[0] == li[0]);
                    assert(l0.subrange(0, l0.len() - lj.len()) =~= l0.subrange(0, l0.len() - li.len()).push(
                        layer(cs, i as int),
                    ));
                    let tail = l0.subrange(l0.len() - li.len(), l0.len() as int);
                    assert(tail == li);
                    assert(li.subrange(1, li.len() as int) =~= lj);
                    assert(l0.subrange(l0.len() - lj.len(), l0.len() as int) =~= tail.subrange(1, tail.len() as int));
                }
                prev = level;
            } else {
                proof {
                    assert(layers(cs, i as int) == layers(cs, i + 1));
                }
            }
            i = i + 1;
        }
        proof {
            let l0 = layers(cs, 0);
            assert(l0.subrange(0, l0.len() as int) =~= l0);
            assert(pots_are(pots@, layers(held, 0)));
            lemma_layers_total(cs, 0);
            assert(cs.subrange(0, m as int) =~= cs);
            lemma_pot_amounts(pots@, l0);
        }
        PotManager { pots }
    }
}

} // verus!
