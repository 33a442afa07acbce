//! Table equity for paying out pots: seat equities where entries for the
//! empty mask (chips of players no longer in the hand) are never merged,
//! and where a winner takes from every entry up to their own chip level.
use vstd::prelude::*;

use crate::casino::table::seats::seat_equity::SeatEquity;
use crate::casino::table::seats::seatbit::{ones, Seatbit};
use crate::casino::table::seats::table_equity::{
    ceiling_of, consolidate_equities, consolidated, find_seat, mergeable, merged,
};
use crate::casino::table::seats::seatbit::{has_seat, lemma_or_has};

verus! {

/// How many players an entry stands for: each seat of its mask, or one
/// player for chips that belong to no seat.
pub open spec fn contributors(e: SeatEquity) -> nat {
    if e.seats.0 == 0 {
        1
    } else {
        ones(e.seats.0 as nat)
    }
}

/// All the chips the entries stand for.
pub open spec fn weight(s: Seq<SeatEquity>) -> nat
    decreases s.len(),
{
    if s.len() == 0 {
        0
    } else {
        weight(s.drop_last()) + (s.last().chips as nat) * contributors(s.last())
    }
}

pub open spec fn min_nat(a: nat, b: nat) -> nat {
    if a <= b {
        a
    } else {
        b
    }
}

/// What a winner at chip level `w` takes: from every entry, up to `w` chips
/// per player it stands for.
pub open spec fn taken(s: Seq<SeatEquity>, w: nat) -> nat
    decreases s.len(),
{
    if s.len() == 0 {
        0
    } else {
        taken(s.drop_last(), w) + min_nat(s.last().chips as nat, w) * contributors(s.last())
    }
}

/// What the winner at chip level `w` leaves: each entry above `w`, reduced
/// by `w`, in the same order.
pub open spec fn leftovers(s: Seq<SeatEquity>, w: usize) -> Seq<SeatEquity>
    decreases s.len(),
{
    if s.len() == 0 {
        Seq::empty()
    } else {
        let rest = leftovers(s.drop_last(), w);
        let e = s.last();
        if e.chips > w {
            rest.push(SeatEquity { chips: (e.chips - w) as usize, seats: e.seats })
        } else {
            rest
        }
    }
}

/// Whether entry `e` is the one a winner holding the seats of `sb` is paid
/// from: a real seat mask sharing a seat with `sb`.
pub open spec fn claims(e: SeatEquity, sb: Seatbit) -> bool {
    e.seats.0 != 0 && e.seats.0 & sb.0 != 0
}

/// Paying out splits every entry's chips between the winner and the
/// leftovers: nothing is created and nothing is lost.
pub proof fn lemma_winnings_conserve(s: Seq<SeatEquity>, w: usize)
    ensures
        taken(s, w as nat) + weight(leftovers(s, w)) == weight(s),
    decreases s.len(),
{
    if s.len() > 0 {
        lemma_winnings_conserve(s.drop_last(), w);
        let e = s.last();
        let n = contributors(e);
        if e.chips > w {
            let rest = leftovers(s.drop_last(), w);
            let pushed = SeatEquity { chips: (e.chips - w) as usize, seats: e.seats };
            assert(rest.push(pushed).drop_last() =~= rest);
            assert(contributors(pushed) == n);
            assert((w as nat) * n + ((e.chips - w) as nat) * n == (e.chips as nat) * n)
                by (nonlinear_arith)
                requires
                    e.chips > w,
            ;
        }
    }
}

/// Taking from a prefix never exceeds what the prefix weighs.
pub proof fn lemma_taken_le_weight(s: Seq<SeatEquity>, w: nat)
    ensures
        taken(s, w) <= weight(s),
    decreases s.len(),
{
    if s.len() > 0 {
        lemma_taken_le_weight(s.drop_last(), w);
        let e = s.last();
        let n = contributors(e);
        assert(min_nat(e.chips as nat, w) * n <= (e.chips as nat) * n) by (nonlinear_arith)
            requires
                min_nat(e.chips as nat, w) <= e.chips,
        ;
    }
}

/// The weight of a prefix is at most the weight of the whole.
pub proof fn lemma_weight_prefix(s: Seq<SeatEquity>, i: int)
    requires
        0 <= i <= s.len(),
    ensures
        weight(s.subrange(0, i)) <= weight(s),
    decreases s.len() - i,
{
    if i < s.len() {
        lemma_weight_prefix(s, i + 1);
        assert(s.subrange(0, i + 1).drop_last() =~= s.subrange(0, i));
    } else {
        assert(s.subrange(0, i) =~= s);
    }
}

/// Joining two masks counts no more seats than the two counted apart.
pub proof fn lemma_ones_or(a: u16, b: u16)
    ensures
        ones((a | b) as nat) <= ones(a as nat) + ones(b as nat),
    decreases a as int + b as int,
{
    let c = a | b;
    if a == 0 && b == 0 {
        assert(a | b == 0) by (bit_vector)
            requires
                a == 0 && b == 0,
        ;
    } else {
        assert(c / 2 == (a / 2) | (b / 2)) by (bit_vector)
            requires
                c == a | b,
        ;
        assert(c % 2 <= a % 2 + b % 2) by (bit_vector)
            requires
                c == a | b,
        ;
        assert(a / 2 + b / 2 < a + b) by (bit_vector)
            requires
                !(a == 0 && b == 0),
        ;
        lemma_ones_or(a / 2, b / 2);
        assert(ones(c as nat) == (c as nat) % 2 + ones((c / 2) as nat));
        assert(ones(a as nat) == (a as nat) % 2 + ones((a / 2) as nat));
        assert(ones(b as nat) == (b as nat) % 2 + ones((b / 2) as nat));
    }
}

/// Merging entries of equal chips never adds weight.
pub proof fn lemma_merged_weight(s: Seq<SeatEquity>)
    ensures
        weight(merged(s, true)) <= weight(s),
        merged(s, true).len() <= s.len(),
    decreases s.len(),
{
    if s.len() > 0 {
        let d = s.drop_last();
        let e = s.last();
        lemma_merged_weight(d);
        let m = merged(d, true);
        if m.len() > 0 && mergeable(m.last(), e, true) {
            let l = m.last();
            let j = SeatEquity { chips: e.chips, seats: Seatbit(l.seats.0 | e.seats.0) };
            let (la, ea) = (l.seats.0, e.seats.0);
            lemma_ones_or(la, ea);
            assert(la | ea != 0) by (bit_vector)
                requires
                    la != 0,
            ;
            assert(contributors(j) <= contributors(l) + contributors(e));
            let c = e.chips as nat;
            assert(c * contributors(j) <= c * contributors(l) + c * contributors(e)) by (nonlinear_arith)
                requires
                    contributors(j) <= contributors(l) + contributors(e),
            ;
            let u = m.update(m.len() - 1, j);
            assert(u.drop_last() =~= m.drop_last());
            assert(weight(m) == weight(m.drop_last()) + (l.chips as nat) * contributors(l));
        } else {
            assert(m.push(e).drop_last() =~= m);
        }
    }
}

/// Taking out one entry takes out exactly its weight.
pub proof fn lemma_weight_remove(s: Seq<SeatEquity>, k: int)
    requires
        0 <= k < s.len(),
    ensures
        weight(s) == weight(s.remove(k)) + (s[k].chips as nat) * contributors(s[k]),
    decreases s.len(),
{
    if k < s.len() - 1 {
        lemma_weight_remove(s.drop_last(), k);
        assert(s.remove(k).drop_last() =~= s.drop_last().remove(k));
        assert(s.remove(k).last() == s.last());
    } else {
        assert(s.remove(k) =~= s.drop_last());
    }
}

/// Entries holding the same multiset weigh the same.
pub proof fn lemma_weight_permutation(s: Seq<SeatEquity>, t: Seq<SeatEquity>)
    requires
        s.to_multiset() == t.to_multiset(),
    ensures
        weight(s) == weight(t),
    decreases s.len(),
{
    broadcast use vstd::seq_lib::group_to_multiset_ensures, vstd::multiset::group_multiset_axioms;

    if s.len() == 0 {
        assert(s.to_multiset().len() == 0);
        assert(t.to_multiset().len() == t.len());
    } else {
        let x = s.last();
        let d = s.drop_last();
        assert(d.push(x) =~= s);
        assert(t.to_multiset().count(x) > 0);
        assert(t.contains(x));
        let k = choose|k: int| 0 <= k < t.len() && t[k] == x;
        let r = t.remove(k);
        assert(r.to_multiset() =~= d.to_multiset());
        lemma_weight_permutation(d, r);
        lemma_weight_remove(t, k);
    }
}

/// Masks without a seat in common add their seat counts.
pub proof fn lemma_ones_or_disjoint(a: u16, b: u16)
    requires
        a & b == 0,
    ensures
        ones((a | b) as nat) == ones(a as nat) + ones(b as nat),
    decreases a as int + b as int,
{
    let c = a | b;
    if a == 0 && b == 0 {
        assert(a | b == 0) by (bit_vector)
            requires
                a == 0 && b == 0,
        ;
    } else {
        assert(c / 2 == (a / 2) | (b / 2) && c % 2 == a % 2 + b % 2 && (a / 2) & (b / 2) == 0) by (bit_vector)
            requires
                c == a | b,
                a & b == 0,
        ;
        assert(a / 2 + b / 2 < a + b) by (bit_vector)
            requires
                !(a == 0 && b == 0),
        ;
        lemma_ones_or_disjoint(a / 2, b / 2);
        assert(ones(c as nat) == (c as nat) % 2 + ones((c / 2) as nat));
        assert(ones(a as nat) == (a as nat) % 2 + ones((a / 2) as nat));
        assert(ones(b as nat) == (b as nat) % 2 + ones((b / 2) as nat));
    }
}

/// Whether no two entries of `s` share a seat.
pub open spec fn masks_disjoint(s: Seq<SeatEquity>) -> bool {
    forall|a: int, b: int| 0 <= a < s.len() && 0 <= b < s.len() && a != b ==> (#[trigger] s[a]).seats.0 & (#[trigger] s[b]).seats.0 == 0
}

/// Whether every mask of `t` is made of the masks of `s`: each seat in a
/// mask of `t` is in a mask of `s`.
pub open spec fn masks_within_entries(t: Seq<SeatEquity>, s: Seq<SeatEquity>) -> bool {
    forall|k: int, i: nat|
        0 <= k < t.len() && #[trigger] has_seat(t[k].seats.0, i) ==> exists|j: int| 0 <= j < s.len() && #[trigger] has_seat(s[j].seats.0, i)
}

/// Masks sharing no seat have no bit in common.
pub proof fn lemma_no_common_seat(a: u16, b: u16)
    requires
        forall|i: nat| !(#[trigger] has_seat(a, i) && has_seat(b, i)),
    ensures
        a & b == 0,
{
    assert(!(has_seat(a, 0) && has_seat(b, 0)));
    assert(!(has_seat(a, 1) && has_seat(b, 1)));
    assert(!(has_seat(a, 2) && has_seat(b, 2)));
    assert(!(has_seat(a, 3) && has_seat(b, 3)));
    assert(!(has_seat(a, 4) && has_seat(b, 4)));
    assert(!(has_seat(a, 5) && has_seat(b, 5)));
    assert(!(has_seat(a, 6) && has_seat(b, 6)));
    assert(!(has_seat(a, 7) && has_seat(b, 7)));
    assert(!(has_seat(a, 8) && has_seat(b, 8)));
    assert(!(has_seat(a, 9) && has_seat(b, 9)));
    assert(!(has_seat(a, 10) && has_seat(b, 10)));
    assert(!(has_seat(a, 11) && has_seat(b, 11)));
    assert(!(has_seat(a, 12) && has_seat(b, 12)));
    assert(!(has_seat(a, 13) && has_seat(b, 13)));
    assert(!(has_seat(a, 14) && has_seat(b, 14)));
    assert(!(has_seat(a, 15) && has_seat(b, 15)));
    assert(a & b == 0) by (bit_vector)
        requires
            !((a >> 0u16) & 1u16 == 1u16 && (b >> 0u16) & 1u16 == 1u16),
            !((a >> 1u16) & 1u16 == 1u16 && (b >> 1u16) & 1u16 == 1u16),
            !((a >> 2u16) & 1u16 == 1u16 && (b >> 2u16) & 1u16 == 1u16),
            !((a >> 3u16) & 1u16 == 1u16 && (b >> 3u16) & 1u16 == 1u16),
            !((a >> 4u16) & 1u16 == 1u16 && (b >> 4u16) & 1u16 == 1u16),
            !((a >> 5u16) & 1u16 == 1u16 && (b >> 5u16) & 1u16 == 1u16),
            !((a >> 6u16) & 1u16 == 1u16 && (b >> 6u16) & 1u16 == 1u16),
            !((a >> 7u16) & 1u16 == 1u16 && (b >> 7u16) & 1u16 == 1u16),
            !((a >> 8u16) & 1u16 == 1u16 && (b >> 8u16) & 1u16 == 1u16),
            !((a >> 9u16) & 1u16 == 1u16 && (b >> 9u16) & 1u16 == 1u16),
            !((a >> 10u16) & 1u16 == 1u16 && (b >> 10u16) & 1u16 == 1u16),
            !((a >> 11u16) & 1u16 == 1u16 && (b >> 11u16) & 1u16 == 1u16),
            !((a >> 12u16) & 1u16 == 1u16 && (b >> 12u16) & 1u16 == 1u16),
            !((a >> 13u16) & 1u16 == 1u16 && (b >> 13u16) & 1u16 == 1u16),
            !((a >> 14u16) & 1u16 == 1u16 && (b >> 14u16) & 1u16 == 1u16),
            !((a >> 15u16) & 1u16 == 1u16 && (b >> 15u16) & 1u16 == 1u16),
    ;
}

/// Masks with no bit in common share no seat.
proof fn lemma_common_seat(a: u16, b: u16, i: nat)
    requires
        a & b == 0,
        has_seat(a, i),
    ensures
        !has_seat(b, i),
{
    let k = i as u16;
    assert(!((b >> k) & 1u16 == 1u16)) by (bit_vector)
        requires
            a & b == 0,
            (a >> k) & 1u16 == 1u16,
            k < 16,
    ;
}

/// Merging entries whose masks share no seat keeps their weight, keeps the
/// masks apart, and makes each merged mask of seats the entries had.
pub proof fn lemma_merged_weight_disjoint(s: Seq<SeatEquity>)
    requires
        masks_disjoint(s),
    ensures
        weight(merged(s, true)) == weight(s),
        masks_disjoint(merged(s, true)),
        masks_within_entries(merged(s, true), s),
    decreases s.len(),
{
    if s.len() > 0 {
        let d = s.drop_last();
        let e = s.last();
        assert(masks_disjoint(d)) by {
            assert forall|a: int, b: int| 0 <= a < d.len() && 0 <= b < d.len() && a != b implies (#[trigger] d[a]).seats.0
                & (#[trigger] d[b]).seats.0 == 0 by {
                assert(d[a] == s[a] && d[b] == s[b]);
            }
        }
        lemma_merged_weight_disjoint(d);
        let m = merged(d, true);
        // `e` shares no seat with any entry made of the entries before it.
        assert forall|k: int| 0 <= k < m.len() implies (#[trigger] m[k]).seats.0 & e.seats.0 == 0 by {
            assert forall|i: nat| !(#[trigger] has_seat(m[k].seats.0, i) && has_seat(e.seats.0, i)) by {
                if has_seat(m[k].seats.0, i) && has_seat(e.seats.0, i) {
                    let j = choose|j: int| 0 <= j < d.len() && #[trigger] has_seat(d[j].seats.0, i);
                    assert(d[j] == s[j]);
                    assert(s[j].seats.0 & s[s.len() - 1].seats.0 == 0);
                    lemma_common_seat(s[j].seats.0, e.seats.0, i);
                }
            }
            lemma_no_common_seat(m[k].seats.0, e.seats.0);
        }
        if m.len() > 0 && mergeable(m.last(), e, true) {
            let l = m.last();
            let j = SeatEquity { chips: e.chips, seats: Seatbit(l.seats.0 | e.seats.0) };
            let (la, ea) = (l.seats.0, e.seats.0);
            assert(la & ea == 0);
            lemma_ones_or_disjoint(la, ea);
            assert(la | ea != 0) by (bit_vector)
                requires
                    la != 0,
            ;
            assert(contributors(j) == contributors(l) + contributors(e));
            let c = e.chips as nat;
            assert(c * contributors(j) == c * contributors(l) + c * contributors(e)) by (nonlinear_arith)
                requires
                    contributors(j) == contributors(l) + contributors(e),
            ;
            let u = m.update(m.len() - 1, j);
            assert(u.drop_last() =~= m.drop_last());
            assert(weight(m) == weight(m.drop_last()) + (l.chips as nat) * contributors(l));
            lemma_or_has(la, ea);
            assert forall|a: int, b: int| 0 <= a < u.len() && 0 <= b < u.len() && a != b implies (#[trigger] u[a]).seats.0
                & (#[trigger] u[b]).seats.0 == 0 by {
                if a == u.len() - 1 {
                    assert(u[b] == m[b]);
                    assert(m[b].seats.0 & la == 0);
                    assert(m[b].seats.0 & ea == 0);
                    let x = m[b].seats.0;
                    assert((la | ea) & x == 0) by (bit_vector)
                        requires
                            x & la == 0,
                            x & ea == 0,
                    ;
                } else if b == u.len() - 1 {
                    assert(u[a] == m[a]);
                    let x = m[a].seats.0;
                    assert(m[a].seats.0 & la == 0);
                    assert(x & (la | ea) == 0) by (bit_vector)
                        requires
                            x & la == 0,
                            x & ea == 0,
                    ;
                } else {
                    assert(u[a] == m[a] && u[b] == m[b]);
                }
            }
            assert forall|k: int, i: nat| 0 <= k < u.len() && #[trigger] has_seat(u[k].seats.0, i) implies exists|jj: int|
                0 <= jj < s.len() && #[trigger] has_seat(s[jj].seats.0, i) by {
                if k == u.len() - 1 {
                    if has_seat(ea, i) {
                        assert(has_seat(s[s.len() - 1].seats.0, i));
                    } else {
                        assert(has_seat(m[m.len() - 1].seats.0, i));
                        let jj = choose|jj: int| 0 <= jj < d.len() && #[trigger] has_seat(d[jj].seats.0, i);
                        assert(s[jj] == d[jj]);
                    }
                } else {
                    assert(u[k] == m[k]);
                    let jj = choose|jj: int| 0 <= jj < d.len() && #[trigger] has_seat(d[jj].seats.0, i);
                    assert(s[jj] == d[jj]);
                }
            }
        } else {
            let u = m.push(e);
            assert(u.drop_last() =~= m);
            assert forall|a: int, b: int| 0 <= a < u.len() && 0 <= b < u.len() && a != b implies (#[trigger] u[a]).seats.0
                & (#[trigger] u[b]).seats.0 == 0 by {
                if a == u.len() - 1 {
                    assert(u[b] == m[b]);
                    let x = m[b].seats.0;
                    let y = e.seats.0;
                    assert(x & y == 0);
                    assert(y & x == 0) by (bit_vector)
                        requires
                            x & y == 0,
                    ;
                } else if b == u.len() - 1 {
                    assert(u[a] == m[a]);
                } else {
                    assert(u[a] == m[a] && u[b] == m[b]);
                }
            }
            assert forall|k: int, i: nat| 0 <= k < u.len() && #[trigger] has_seat(u[k].seats.0, i) implies exists|jj: int|
                0 <= jj < s.len() && #[trigger] has_seat(s[jj].seats.0, i) by {
                if k == u.len() - 1 {
                    assert(has_seat(s[s.len() - 1].seats.0, i));
                } else {
                    assert(u[k] == m[k]);
                    let jj = choose|jj: int| 0 <= jj < d.len() && #[trigger] has_seat(d[jj].seats.0, i);
                    assert(s[jj] == d[jj]);
                }
            }
        }
    }
}

/// Entries that are the same multiset share no seat when either does.
proof fn lemma_disjoint_permutation(s: Seq<SeatEquity>, t: Seq<SeatEquity>)
    requires
        s.to_multiset() == t.to_multiset(),
        masks_disjoint(s),
    ensures
        masks_disjoint(t),
{
    broadcast use vstd::seq_lib::group_to_multiset_ensures, vstd::multiset::group_multiset_axioms;

    assert forall|a: int, b: int| 0 <= a < t.len() && 0 <= b < t.len() && a != b implies (#[trigger] t[a]).seats.0
        & (#[trigger] t[b]).seats.0 == 0 by {
        let x = t[a];
        let y = t[b];
        assert(t.to_multiset().count(x) > 0);
        let ia = choose|i: int| 0 <= i < s.len() && s[i] == x;
        let tr = t.remove(a);
        assert(tr[if b < a { b } else { b - 1 }] == y);
        assert(tr.to_multiset() =~= t.to_multiset().remove(x));
        let sr = s.remove(ia);
        assert(sr.to_multiset() =~= s.to_multiset().remove(x));
        assert(sr.to_multiset().count(y) > 0);
        let ib0 = choose|i: int| 0 <= i < sr.len() && sr[i] == y;
        let ib = if ib0 < ia { ib0 } else { ib0 + 1 };
        assert(s[ib] == y);
        assert(ib != ia);
    }
}

/// Consolidating entries whose masks share no seat keeps their weight.
pub proof fn lemma_consolidated_weight_disjoint(s: Seq<SeatEquity>)
    requires
        masks_disjoint(s),
    ensures
        weight(consolidated(s, true)) == weight(s),
        masks_disjoint(consolidated(s, true)),
{
    if s.len() > 1 {
        let leq = |a: SeatEquity, b: SeatEquity| crate::casino::table::seats::seat_equity::equity_leq(a, b);
        crate::casino::table::seats::seat_equity::lemma_equity_order_total();
        s.lemma_sort_by_ensures(leq);
        let sorted = crate::casino::table::seats::seat_equity::sorted_equities(s);
        broadcast use vstd::seq_lib::group_to_multiset_ensures;

        lemma_weight_permutation(s, sorted);
        lemma_disjoint_permutation(s, sorted);
        lemma_merged_weight_disjoint(sorted);
    }
}

/// What is left after a winner keeps the masks of the entries it came from,
/// so masks that shared no seat still share none.
pub proof fn lemma_leftovers_disjoint(s: Seq<SeatEquity>, w: usize)
    requires
        masks_disjoint(s),
    ensures
        masks_disjoint(leftovers(s, w)),
        forall|k: int|
            0 <= k < leftovers(s, w).len() ==> exists|j: int| 0 <= j < s.len() && (#[trigger] leftovers(s, w)[k]).seats == s[j].seats,
    decreases s.len(),
{
    if s.len() > 0 {
        let d = s.drop_last();
        let e = s.last();
        assert(masks_disjoint(d)) by {
            assert forall|a: int, b: int| 0 <= a < d.len() && 0 <= b < d.len() && a != b implies (#[trigger] d[a]).seats.0
                & (#[trigger] d[b]).seats.0 == 0 by {
                assert(d[a] == s[a] && d[b] == s[b]);
            }
        }
        lemma_leftovers_disjoint(d, w);
        let rest = leftovers(d, w);
        if e.chips > w {
            let x = SeatEquity { chips: (e.chips - w) as usize, seats: e.seats };
            let u = rest.push(x);
            assert forall|k: int| 0 <= k < rest.len() implies (#[trigger] rest[k]).seats.0 & e.seats.0 == 0 by {
                let j = choose|j: int| 0 <= j < d.len() && (#[trigger] rest[k]).seats == d[j].seats;
                assert(d[j] == s[j]);
                assert(s[j].seats.0 & s[s.len() - 1].seats.0 == 0);
            }
            assert forall|a: int, b: int| 0 <= a < u.len() && 0 <= b < u.len() && a != b implies (#[trigger] u[a]).seats.0
                & (#[trigger] u[b]).seats.0 == 0 by {
                if a == u.len() - 1 {
                    assert(u[b] == rest[b]);
                    let p = rest[b].seats.0;
                    let q = e.seats.0;
                    assert(p & q == 0);
                    assert(q & p == 0) by (bit_vector)
                        requires
                            p & q == 0,
                    ;
                } else if b == u.len() - 1 {
                    assert(u[a] == rest[a]);
                } else {
                    assert(u[a] == rest[a] && u[b] == rest[b]);
                }
            }
            assert forall|k: int| 0 <= k < u.len() implies exists|j: int| 0 <= j < s.len() && (#[trigger] u[k]).seats == s[j].seats by {
                if k == u.len() - 1 {
                    assert(u[k].seats == s[s.len() - 1].seats);
                } else {
                    assert(u[k] == rest[k]);
                    let j = choose|j: int| 0 <= j < d.len() && (#[trigger] rest[k]).seats == d[j].seats;
                    assert(s[j] == d[j]);
                }
            }
        } else {
            assert forall|k: int| 0 <= k < rest.len() implies exists|j: int| 0 <= j < s.len() && (#[trigger] rest[k]).seats == s[j].seats by {
                let j = choose|j: int| 0 <= j < d.len() && (#[trigger] rest[k]).seats == d[j].seats;
                assert(s[j] == d[j]);
            }
        }
    }
}

/// Consolidating never adds weight or entries.
pub proof fn lemma_consolidated_weight(s: Seq<SeatEquity>)
    ensures
        weight(consolidated(s, true)) <= weight(s),
        consolidated(s, true).len() <= s.len(),
{
    if s.len() > 1 {
        let leq = |a: SeatEquity, b: SeatEquity| crate::casino::table::seats::seat_equity::equity_leq(a, b);
        crate::casino::table::seats::seat_equity::lemma_equity_order_total();
        s.lemma_sort_by_ensures(leq);
        let sorted = crate::casino::table::seats::seat_equity::sorted_equities(s);
        broadcast use vstd::seq_lib::group_to_multiset_ensures;

        lemma_weight_permutation(s, sorted);
        lemma_merged_weight(sorted);
        assert(sorted.len() == s.len()) by {
            assert(sorted.to_multiset().len() == s.to_multiset().len());
        }
    }
}

/// What is left after a winner at level `w` has fewer entries than before
/// when some entry holds no more than `w`.
pub proof fn lemma_leftovers_len(s: Seq<SeatEquity>, w: usize)
    ensures
        leftovers(s, w).len() <= s.len(),
        (exists|k: int| 0 <= k < s.len() && (#[trigger] s[k]).chips <= w) ==> leftovers(s, w).len() < s.len(),
    decreases s.len(),
{
    if s.len() > 0 {
        lemma_leftovers_len(s.drop_last(), w);
        if exists|k: int| 0 <= k < s.len() && (#[trigger] s[k]).chips <= w {
            let k = choose|k: int| 0 <= k < s.len() && (#[trigger] s[k]).chips <= w;
            if k < s.len() - 1 {
                assert(s.drop_last()[k] == s[k]);
            }
        }
    }
}

/// A table's seat equities, for paying out pots.
#[derive(Clone, Debug, PartialEq, Eq, Hash, Default)]
pub struct TableEquity(pub Vec<SeatEquity>);

impl View for TableEquity {
    type V = Seq<SeatEquity>;

    open spec fn view(&self) -> Seq<SeatEquity> {
        self.0@
    }
}

impl TableEquity {
    /// The equities, sorted, with equal chip amounts of real seat masks
    /// merged; entries for the empty mask stay separate.
    pub fn new(equities: Vec<SeatEquity>) -> (t: Self)
        ensures
            t@ == consolidated(equities@, true),
    {
        TableEquity(consolidate_equities(equities, true))
    }

    /// Adds an entry and consolidates again.
    pub fn add(&mut self, seat: SeatEquity)
        ensures
            final(self)@ == consolidated(old(self)@.push(seat), true),
    {
        self.0.push(seat);
        self.consolidate();
    }

    /// Sorts the entries and merges real seat masks with equal chips.
    pub fn consolidate(&mut self)
        ensures
            final(self)@ == consolidated(old(self)@, true),
    {
        let mut v: Vec<SeatEquity> = Vec::new();
        std::mem::swap(&mut v, &mut self.0);
        self.0 = consolidate_equities(v, true);
    }

    pub fn ceiling(&self) -> (c: usize)
        ensures
            c == ceiling_of(self@),
    {
        if self.first().count_ones() > 1 {
            self.first().chips
        } else if self.len() > 1 {
            self.second().chips
        } else {
            0
        }
    }

    pub fn equities(&self) -> (v: &Vec<SeatEquity>)
        ensures
            v@ == self@,
    {
        &self.0
    }

    pub fn equities_mut(&mut self) -> (v: &mut Vec<SeatEquity>)
        ensures
            *v == old(self).0,
            final(self).0 == *final(v),
    {
        &mut self.0
    }

    /// The first entry, or the empty equity when there is none.
    pub fn first(&self) -> (e: SeatEquity)
        ensures
            self@.len() > 0 ==> e == self@[0],
            self@.len() == 0 ==> e == (SeatEquity { chips: 0, seats: Seatbit(0) }),
    {
        if self.0.len() > 0 {
            self.0[0]
        } else {
            SeatEquity { chips: 0, seats: Seatbit(0) }
        }
    }

    /// The second entry, or the empty equity when there is none.
    pub fn second(&self) -> (e: SeatEquity)
        ensures
            self@.len() > 1 ==> e == self@[1],
            self@.len() <= 1 ==> e == (SeatEquity { chips: 0, seats: Seatbit(0) }),
    {
        if self.0.len() > 1 {
            self.0[1]
        } else {
            SeatEquity { chips: 0, seats: Seatbit(0) }
        }
    }

    pub fn is_empty(&self) -> (b: bool)
        ensures
            b == (self@.len() == 0),
    {
        self.0.len() == 0
    }

    pub fn len(&self) -> (n: usize)
        ensures
            n == self@.len(),
    {
        self.0.len()
    }

    /// The rank of `seat_number`: the position of the first entry that holds
    /// it, or `None` when no entry does.
    pub fn player_ranking(&self, seat_number: u8) -> (r: Option<usize>)
        ensures
            r is None <==> forall|i: int|
                0 <= i < self@.len() ==> !has_seat(#[trigger] self@[i].seats.0, seat_number as nat),
            r matches Some(k) ==> k < self@.len() && has_seat(self@[k as int].seats.0, seat_number as nat)
                && forall|i: int| 0 <= i < k ==> !has_seat(#[trigger] self@[i].seats.0, seat_number as nat),
    {
        find_seat(&self.0, seat_number)
    }

    /// Pays the pot out to the seats of `sb`. The winner's chip level is that
    /// of the first entry with a real mask sharing a seat with `sb`; every
    /// entry gives up to that level per player it stands for, and what each
    /// entry holds above the level stays behind, consolidated again. `None`
    /// when no entry holds a seat of `sb`.
    pub fn winnings(&self, sb: Seatbit) -> (r: Option<(usize, TableEquity)>)
        requires
            weight(self@) <= usize::MAX,
        ensures
            r is None <==> forall|i: int| 0 <= i < self@.len() ==> !claims(#[trigger] self@[i], sb),
            r matches Some(p) ==> exists|k: int|
                0 <= k < self@.len() && claims(self@[k], sb) && (forall|i: int|
                    0 <= i < k ==> !claims(#[trigger] self@[i], sb)) && p.0 == taken(
                    self@,
                    self@[k].chips as nat,
                ) && p.1@ == consolidated(leftovers(self@, self@[k].chips), true)
                    && p.0 + weight(leftovers(self@, self@[k].chips)) == weight(self@),
            masks_disjoint(self@) ==> (r matches Some(p) ==> p.0 + weight(p.1@) == weight(self@) && masks_disjoint(p.1@)),
    {
        let mut k: usize = 0;
        while k < self.0.len() && !(self.0[k].seats.0 != 0 && self.0[k].seats.0 & sb.0 != 0)
            invariant
                k <= self@.len(),
                forall|i: int| 0 <= i < k ==> !claims(#[trigger] self@[i], sb),
            decreases self@.len() - k,
        {
            k = k + 1;
        }
        if k == self.0.len() {
            return None;
        }
        let winner_chips = self.0[k].chips;
        let ghost s = self@;
        let mut total: usize = 0;
        let mut remaining: Vec<SeatEquity> = Vec::new();
        let mut i: usize = 0;
        while i < self.0.len()
            invariant
                i <= s.len(),
                s == self@,
                weight(s) <= usize::MAX,
                total == taken(s.subrange(0, i as int), winner_chips as nat),
                remaining@ == leftovers(s.subrange(0, i as int), winner_chips),
            decreases s.len() - i,
        {
            let e = self.0[i];
            proof {
                assert(s.subrange(0, i + 1).drop_last() =~= s.subrange(0, i as int));
                assert(s.subrange(0, i + 1).last() == e);
                lemma_taken_le_weight(s.subrange(0, i + 1), winner_chips as nat);
                lemma_weight_prefix(s, i + 1);
            }
            let num_seats: usize = if e.seats.0 == 0 {
                1
            } else {
                e.count_ones()
            };
            let taken_per_seat: usize = if e.chips < winner_chips {
                e.chips
            } else {
                winner_chips
            };
            proof {
                assert(num_seats == contributors(e));
                assert(taken_per_seat == min_nat(e.chips as nat, winner_chips as nat));
                assert(taken_per_seat * num_seats == min_nat(e.chips as nat, winner_chips as nat)
                    * contributors(e));
            }
            total = total + taken_per_seat * num_seats;
            if e.chips > winner_chips {
                remaining.push(SeatEquity { chips: e.chips - winner_chips, seats: e.seats });
            }
            i = i + 1;
        }
        proof {
            assert(s.subrange(0, s.len() as int) =~= s);
            lemma_winnings_conserve(s, winner_chips);
            if masks_disjoint(s) {
                lemma_leftovers_disjoint(s, winner_chips);
                lemma_consolidated_weight_disjoint(remaining@);
            }
        }
        Some((total, TableEquity::new(remaining)))
    }
}

} // verus!
