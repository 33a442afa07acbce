//! A table's seat equities, kept sorted with equal chip amounts merged.
use vstd::prelude::*;

use crate::casino::table::seats::seat_equity::{sort_equities, sorted_equities, SeatEquity};
use crate::casino::table::seats::seatbit::{has_seat, lemma_or_has, ones, Seatbit};

verus! {

/// Whether `e` folds into `last` when consolidating: the same chip amount,
/// and, when `keep_none` holds, neither of them is the empty mask.
pub open spec fn mergeable(last: SeatEquity, e: SeatEquity, keep_none: bool) -> bool {
    last.chips == e.chips && (!keep_none || (last.seats.0 != 0 && e.seats.0 != 0))
}

/// Folds each entry of `s` into the entry before it when they are
/// mergeable, joining their seat masks.
pub open spec fn merged(s: Seq<SeatEquity>, keep_none: bool) -> Seq<SeatEquity>
    decreases s.len(),
{
    if s.len() == 0 {
        Seq::empty()
    } else {
        let m = merged(s.drop_last(), keep_none);
        let e = s.last();
        if m.len() > 0 && mergeable(m.last(), e, keep_none) {
            m.update(
                m.len() - 1,
                SeatEquity { chips: e.chips, seats: Seatbit(m.last().seats.0 | e.seats.0) },
            )
        } else {
            m.push(e)
        }
    }
}

/// The consolidated form of `s`: sorted into the equity order, then merged.
/// A collection of one entry or none is already consolidated.
pub open spec fn consolidated(s: Seq<SeatEquity>, keep_none: bool) -> Seq<SeatEquity> {
    if s.len() <= 1 {
        s
    } else {
        merged(sorted_equities(s), keep_none)
    }
}

/// Some entry of `s` is at `c` chips.
pub open spec fn has_level(s: Seq<SeatEquity>, c: usize) -> bool {
    exists|k: int| 0 <= k < s.len() && (#[trigger] s[k]).chips == c
}

/// Some entry of `s` at `c` chips holds seat `i`.
pub open spec fn level_holds(s: Seq<SeatEquity>, c: usize, i: nat) -> bool {
    exists|k: int| 0 <= k < s.len() && (#[trigger] s[k]).chips == c && has_seat(s[k].seats.0, i)
}

/// Whether the chips never rise along `s`.
pub open spec fn falling(s: Seq<SeatEquity>) -> bool {
    forall|a: int, b: int| 0 <= a < b < s.len() ==> (#[trigger] s[a]).chips >= (#[trigger] s[b]).chips
}

/// Whether the chips fall strictly along `s`.
pub open spec fn strictly_falling(s: Seq<SeatEquity>) -> bool {
    forall|a: int, b: int| 0 <= a < b < s.len() ==> (#[trigger] s[a]).chips > (#[trigger] s[b]).chips
}

proof fn lemma_merged_levels(t: Seq<SeatEquity>, keep_none: bool)
    requires
        forall|a: int, b: int| 0 <= a < b < t.len() ==> (#[trigger] t[a]).chips >= (#[trigger] t[b]).chips,
    ensures
        !keep_none ==> strictly_falling(merged(t, keep_none)),
        falling(merged(t, keep_none)),
        t.len() > 0 ==> merged(t, keep_none).len() > 0 && merged(t, keep_none).last().chips == t.last().chips,
        forall|c: usize| #[trigger] has_level(merged(t, keep_none), c) <==> has_level(t, c),
        forall|c: usize, i: nat| #[trigger] level_holds(merged(t, keep_none), c, i) <==> level_holds(t, c, i),
    decreases t.len(),
{
    if t.len() > 0 {
        let t0 = t.drop_last();
        lemma_merged_levels(t0, keep_none);
        let m = merged(t0, keep_none);
        let e = t.last();
        let out = merged(t, keep_none);
        if t0.len() > 0 {
            assert(t0.last() == t[t.len() - 2]);
            assert(e.chips <= m.last().chips);
        }
        if m.len() > 0 && mergeable(m.last(), e, keep_none) {
            lemma_or_has(m.last().seats.0, e.seats.0);
            assert(out == m.update(m.len() - 1, SeatEquity { chips: e.chips, seats: Seatbit(m.last().seats.0 | e.seats.0) }));
            assert forall|a: int, b: int| 0 <= a < b < out.len() implies (#[trigger] out[a]).chips >= (#[trigger] out[b]).chips
                && (!keep_none ==> out[a].chips > out[b].chips) by {
                if b == out.len() - 1 {
                    assert(m[a].chips >= m[b].chips);
                } else {
                    assert(out[a] == m[a] && out[b] == m[b]);
                }
            }
            assert forall|c: usize| #[trigger] has_level(out, c) <==> has_level(t, c) by {
                if has_level(out, c) {
                    let k = choose|k: int| 0 <= k < out.len() && (#[trigger] out[k]).chips == c;
                    if k == out.len() - 1 {
                        assert(t[t.len() - 1].chips == c);
                    } else {
                        assert(out[k] == m[k]);
                        assert(has_level(m, c));
                        let j = choose|j: int| 0 <= j < t0.len() && (#[trigger] t0[j]).chips == c;
                        assert(t[j] == t0[j]);
                    }
                }
                if has_level(t, c) {
                    let k = choose|k: int| 0 <= k < t.len() && (#[trigger] t[k]).chips == c;
                    if k == t.len() - 1 {
                        assert(out[out.len() - 1].chips == c);
                    } else {
                        assert(t0[k] == t[k]);
                        assert(has_level(t0, c));
                        assert(has_level(m, c));
                        let j = choose|j: int| 0 <= j < m.len() && (#[trigger] m[j]).chips == c;
                        if j == m.len() - 1 {
                            assert(out[j].chips == c);
                        } else {
                            assert(out[j] == m[j]);
                        }
                    }
                }
            }
            assert forall|c: usize, i: nat| #[trigger] level_holds(out, c, i) <==> level_holds(t, c, i) by {
                if level_holds(out, c, i) {
                    let k = choose|k: int| 0 <= k < out.len() && (#[trigger] out[k]).chips == c && has_seat(out[k].seats.0, i);
                    if k == out.len() - 1 {
                        if has_seat(e.seats.0, i) {
                            assert(t[t.len() - 1] == e);
                        } else {
                            assert(has_seat(m.last().seats.0, i));
                            assert(m[m.len() - 1].chips == c);
                            assert(level_holds(m, c, i));
                            assert(level_holds(t0, c, i));
                            let j = choose|j: int| 0 <= j < t0.len() && (#[trigger] t0[j]).chips == c && has_seat(t0[j].seats.0, i);
                            assert(t[j] == t0[j]);
                        }
                    } else {
                        assert(out[k] == m[k]);
                        assert(level_holds(m, c, i));
                        let j = choose|j: int| 0 <= j < t0.len() && (#[trigger] t0[j]).chips == c && has_seat(t0[j].seats.0, i);
                        assert(t[j] == t0[j]);
                    }
                }
                if level_holds(t, c, i) {
                    let k = choose|k: int| 0 <= k < t.len() && (#[trigger] t[k]).chips == c && has_seat(t[k].seats.0, i);
                    if k == t.len() - 1 {
                        assert(out[out.len() - 1].chips == c && has_seat(out[out.len() - 1].seats.0, i));
                    } else {
                        assert(t0[k] == t[k]);
                        assert(level_holds(t0, c, i));
                        assert(level_holds(m, c, i));
                        let j = choose|j: int| 0 <= j < m.len() && (#[trigger] m[j]).chips == c && has_seat(m[j].seats.0, i);
                        if j == m.len() - 1 {
                            assert(out[j].chips == c && has_seat(out[j].seats.0, i));
                        } else {
                            assert(out[j] == m[j]);
                        }
                    }
                }
            }
        } else {
            assert(out == m.push(e));
            assert forall|a: int, b: int| 0 <= a < b < out.len() implies (#[trigger] out[a]).chips >= (#[trigger] out[b]).chips
                && (!keep_none ==> out[a].chips > out[b].chips) by {
                if b == out.len() - 1 {
                    assert(m[m.len() - 1].chips >= e.chips);
                    assert(!keep_none ==> m[m.len() - 1].chips > e.chips);
                    if a < m.len() - 1 {
                        assert(m[a].chips >= m[m.len() - 1].chips);
                    }
                } else {
                    assert(out[a] == m[a] && out[b] == m[b]);
                }
            }
            assert forall|c: usize| #[trigger] has_level(out, c) <==> has_level(t, c) by {
                if has_level(out, c) {
                    let k = choose|k: int| 0 <= k < out.len() && (#[trigger] out[k]).chips == c;
                    if k == out.len() - 1 {
                        assert(t[t.len() - 1].chips == c);
                    } else {
                        assert(out[k] == m[k]);
                        assert(has_level(m, c));
                        let j = choose|j: int| 0 <= j < t0.len() && (#[trigger] t0[j]).chips == c;
                        assert(t[j] == t0[j]);
                    }
                }
                if has_level(t, c) {
                    let k = choose|k: int| 0 <= k < t.len() && (#[trigger] t[k]).chips == c;
                    if k == t.len() - 1 {
                        assert(out[out.len() - 1].chips == c);
                    } else {
                        assert(t0[k] == t[k]);
                        assert(has_level(t0, c));
                        assert(has_level(m, c));
                        let j = choose|j: int| 0 <= j < m.len() && (#[trigger] m[j]).chips == c;
                        assert(out[j] == m[j]);
                    }
                }
            }
            assert forall|c: usize, i: nat| #[trigger] level_holds(out, c, i) <==> level_holds(t, c, i) by {
                if level_holds(out, c, i) {
                    let k = choose|k: int| 0 <= k < out.len() && (#[trigger] out[k]).chips == c && has_seat(out[k].seats.0, i);
                    if k == out.len() - 1 {
                        assert(t[t.len() - 1] == e);
                    } else {
                        assert(out[k] == m[k]);
                        assert(level_holds(m, c, i));
                        let j = choose|j: int| 0 <= j < t0.len() && (#[trigger] t0[j]).chips == c && has_seat(t0[j].seats.0, i);
                        assert(t[j] == t0[j]);
                    }
                }
                if level_holds(t, c, i) {
                    let k = choose|k: int| 0 <= k < t.len() && (#[trigger] t[k]).chips == c && has_seat(t[k].seats.0, i);
                    if k == t.len() - 1 {
                        assert(out[out.len() - 1] == e);
                    } else {
                        assert(t0[k] == t[k]);
                        assert(level_holds(t0, c, i));
                        assert(level_holds(m, c, i));
                        let j = choose|j: int| 0 <= j < m.len() && (#[trigger] m[j]).chips == c && has_seat(m[j].seats.0, i);
                        assert(out[j] == m[j]);
                    }
                }
            }
        }
    }
}

/// Entries that are the same multiset hold the same levels and seats.
proof fn lemma_permuted_levels(a: Seq<SeatEquity>, b: Seq<SeatEquity>)
    requires
        a.to_multiset() == b.to_multiset(),
    ensures
        forall|c: usize| #[trigger] has_level(a, c) <==> has_level(b, c),
        forall|c: usize, i: nat| #[trigger] level_holds(a, c, i) <==> level_holds(b, c, i),
{
    broadcast use vstd::seq_lib::group_to_multiset_ensures;

    a.to_multiset_ensures();
    b.to_multiset_ensures();
    assert forall|x: SeatEquity| a.contains(x) <==> b.contains(x) by {
        assert(a.to_multiset().count(x) == b.to_multiset().count(x));
        assert(a.contains(x) <==> a.to_multiset().count(x) > 0);
        assert(b.contains(x) <==> b.to_multiset().count(x) > 0);
    }
    assert forall|c: usize| #[trigger] has_level(a, c) <==> has_level(b, c) by {
        if has_level(a, c) {
            let k = choose|k: int| 0 <= k < a.len() && (#[trigger] a[k]).chips == c;
            assert(a.contains(a[k]));
            let j = choose|j: int| 0 <= j < b.len() && b[j] == a[k];
            assert(b[j].chips == c);
        }
        if has_level(b, c) {
            let k = choose|k: int| 0 <= k < b.len() && (#[trigger] b[k]).chips == c;
            assert(b.contains(b[k]));
            let j = choose|j: int| 0 <= j < a.len() && a[j] == b[k];
            assert(a[j].chips == c);
        }
    }
    assert forall|c: usize, i: nat| #[trigger] level_holds(a, c, i) <==> level_holds(b, c, i) by {
        if level_holds(a, c, i) {
            let k = choose|k: int| 0 <= k < a.len() && (#[trigger] a[k]).chips == c && has_seat(a[k].seats.0, i);
            assert(a.contains(a[k]));
            let j = choose|j: int| 0 <= j < b.len() && b[j] == a[k];
            assert(b[j].chips == c && has_seat(b[j].seats.0, i));
        }
        if level_holds(b, c, i) {
            let k = choose|k: int| 0 <= k < b.len() && (#[trigger] b[k]).chips == c && has_seat(b[k].seats.0, i);
            assert(b.contains(b[k]));
            let j = choose|j: int| 0 <= j < a.len() && a[j] == b[k];
            assert(a[j].chips == c && has_seat(a[j].seats.0, i));
        }
    }
}

/// Consolidating seat equities orders them from the most chips down, and
/// each chip level holds exactly the seats that the entries at that level
/// held: nobody is lost and no level made up. Merging the empty masks too
/// (`keep_none` false), there is one entry per level.
pub proof fn lemma_consolidated_levels(s: Seq<SeatEquity>, keep_none: bool)
    ensures
        s.len() > 1 ==> falling(consolidated(s, keep_none)),
        s.len() > 1 && !keep_none ==> strictly_falling(consolidated(s, keep_none)),
        forall|c: usize| #[trigger] has_level(consolidated(s, keep_none), c) <==> has_level(s, c),
        forall|c: usize, i: nat| #[trigger] level_holds(consolidated(s, keep_none), c, i) <==> level_holds(s, c, i),
{
    if s.len() > 1 {
        let leq = |a: SeatEquity, b: SeatEquity| crate::casino::table::seats::seat_equity::equity_leq(a, b);
        crate::casino::table::seats::seat_equity::lemma_equity_order_total();
        s.lemma_sort_by_ensures(leq);
        let sorted = sorted_equities(s);
        assert forall|a: int, b: int| 0 <= a < b < sorted.len() implies (#[trigger] sorted[a]).chips >= (
        #[trigger] sorted[b]).chips by {
            assert(leq(sorted[a], sorted[b]));
        }
        lemma_merged_levels(sorted, keep_none);
        lemma_permuted_levels(sorted, s);
    }
}

/// Sorts and merges `v`.
pub fn consolidate_equities(v: Vec<SeatEquity>, keep_none: bool) -> (r: Vec<SeatEquity>)
    ensures
        r@ == consolidated(v@, keep_none),
{
    if v.len() <= 1 {
        return v;
    }
    let sorted = sort_equities(v);
    let mut c: Vec<SeatEquity> = Vec::new();
    let mut i: usize = 0;
    while i < sorted.len()
        invariant
            i <= sorted.len(),
            c@ == merged(sorted@.subrange(0, i as int), keep_none),
        decreases sorted.len() - i,
    {
        let e = sorted[i];
        proof {
            assert(sorted@.subrange(0, i + 1).drop_last() =~= sorted@.subrange(0, i as int));
        }
        let n = c.len();
        if n > 0 && c[n - 1].chips == e.chips && (!keep_none || (c[n - 1].seats.0 != 0
            && e.seats.0 != 0)) {
            let joined = SeatEquity { chips: e.chips, seats: Seatbit(c[n - 1].seats.0 | e.seats.0) };
            c.set(n - 1, joined);
        } else {
            c.push(e);
        }
        i = i + 1;
    }
    proof {
        assert(sorted@.subrange(0, sorted@.len() as int) =~= sorted@);
    }
    c
}

/// The position of the first entry holding seat `seat`, if any.
pub fn find_seat(s: &Vec<SeatEquity>, seat: u8) -> (r: Option<usize>)
    ensures
        r is None <==> forall|i: int| 0 <= i < s@.len() ==> !has_seat(#[trigger] s@[i].seats.0, seat as nat),
        r matches Some(k) ==> k < s@.len() && has_seat(s@[k as int].seats.0, seat as nat) && forall|
            i: int,
        | 0 <= i < k ==> !has_seat(#[trigger] s@[i].seats.0, seat as nat),
{
    let mut i: usize = 0;
    while i < s.len()
        invariant
            i <= s@.len(),
            forall|j: int| 0 <= j < i ==> !has_seat(#[trigger] s@[j].seats.0, seat as nat),
        decreases s.len() - i,
    {
        if s[i].seats.contains(seat) {
            return Some(i);
        }
        i = i + 1;
    }
    None
}

/// A table's seat equities.
#[derive(Clone, Debug, PartialEq, Eq, Hash, Default)]
pub struct TableEquity(pub Vec<SeatEquity>);

impl View for TableEquity {
    type V = Seq<SeatEquity>;

    open spec fn view(&self) -> Seq<SeatEquity> {
        self.0@
    }
}

/// The chip ceiling of consolidated equities: the top amount when two or
/// more seats share it, otherwise the second amount, otherwise zero.
pub open spec fn ceiling_of(s: Seq<SeatEquity>) -> usize {
    if s.len() > 0 && ones(s[0].seats.0 as nat) > 1 {
        s[0].chips
    } else if s.len() > 1 {
        s[1].chips
    } else {
        0
    }
}

impl TableEquity {
    /// The equities, sorted and with equal chip amounts merged.
    pub fn new(equities: Vec<SeatEquity>) -> (t: Self)
        ensures
            t@ == consolidated(equities@, false),
    {
        TableEquity(consolidate_equities(equities, false))
    }

    /// Adds an entry and consolidates again.
    pub fn add(&mut self, seat: SeatEquity)
        ensures
            final(self)@ == consolidated(old(self)@.push(seat), false),
    {
        self.0.push(seat);
        self.consolidate();
    }

    /// Sorts the entries and merges those with equal chip amounts.
    pub fn consolidate(&mut self)
        ensures
            final(self)@ == consolidated(old(self)@, false),
    {
        let mut v: Vec<SeatEquity> = Vec::new();
        std::mem::swap(&mut v, &mut self.0);
        self.0 = consolidate_equities(v, false);
    }

    pub fn ceiling(&self) -> (c: usize)
        ensures
            c == ceiling_of(self@),
    {
        if self.first().count_ones() > 1 {
            self.first().chips
        } else if self.len() > 1 {
            self.second().chips
        } else {
            0
        }
    }

    pub fn equities(&self) -> (v: &Vec<SeatEquity>)
        ensures
            v@ == self@,
    {
        &self.0
    }

    pub fn equities_mut(&mut self) -> (v: &mut Vec<SeatEquity>)
        ensures
            *v == old(self).0,
            final(self).0 == *final(v),
    {
        &mut self.0
    }

    /// The first entry, or the empty equity when there is none.
    pub fn first(&self) -> (e: SeatEquity)
        ensures
            self@.len() > 0 ==> e == self@[0],
            self@.len() == 0 ==> e == (SeatEquity { chips: 0, seats: Seatbit(0) }),
    {
        if self.0.len() > 0 {
            self.0[0]
        } else {
            SeatEquity { chips: 0, seats: Seatbit(0) }
        }
    }

    /// The second entry, or the empty equity when there is none.
    pub fn second(&self) -> (e: SeatEquity)
        ensures
            self@.len() > 1 ==> e == self@[1],
            self@.len() <= 1 ==> e == (SeatEquity { chips: 0, seats: Seatbit(0) }),
    {
        if self.0.len() > 1 {
            self.0[1]
        } else {
            SeatEquity { chips: 0, seats: Seatbit(0) }
        }
    }

    pub fn is_empty(&self) -> (b: bool)
        ensures
            b == (self@.len() == 0),
    {
        self.0.len() == 0
    }

    pub fn len(&self) -> (n: usize)
        ensures
            n == self@.len(),
    {
        self.0.len()
    }

    /// The rank of `seat_number`: the position of the first entry that holds
    /// it, or `None` when no entry does.
    pub fn player_ranking(&self, seat_number: u8) -> (r: Option<usize>)
        ensures
            r is None <==> forall|i: int|
                0 <= i < self@.len() ==> !has_seat(#[trigger] self@[i].seats.0, seat_number as nat),
            r matches Some(k) ==> k < self@.len() && has_seat(self@[k as int].seats.0, seat_number as nat)
                && forall|i: int| 0 <= i < k ==> !has_seat(#[trigger] self@[i].seats.0, seat_number as nat),
    {
        find_seat(&self.0, seat_number)
    }
}

} // verus!
