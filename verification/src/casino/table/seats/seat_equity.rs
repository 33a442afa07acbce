//! Seat equity: a chip amount together with the seats that hold it.
use vstd::prelude::*;
use vstd::relations::{sorted_by, total_ordering};
use vstd::string::*;

use crate::casino::table::seats::seatbit::{has_seat, ones, Seatbit};
use crate::text::{binary_padded, decimal, push_binary_padded, push_decimal};

verus! {

broadcast use vstd::seq_lib::group_to_multiset_ensures;

/// The chips that a collection of seats stands to win or has committed.
#[derive(Clone, Copy, Debug, PartialEq, Eq, Structural, Hash, Default)]
pub struct SeatEquity {
    pub chips: usize,
    pub seats: Seatbit,
}

/// The order of seat equities: more chips first, and among equal chips the
/// smaller seat mask first.
pub open spec fn equity_leq(a: SeatEquity, b: SeatEquity) -> bool {
    a.chips > b.chips || (a.chips == b.chips && a.seats.0 <= b.seats.0)
}

/// The text of a seat equity.
pub open spec fn seat_equity_text(e: SeatEquity) -> Seq<char> {
    "SeatEquity(chips="@ + decimal(e.chips as nat) + ", seats=0b"@ + binary_padded(
        e.seats.0 as nat,
        16,
    ) + ", count="@ + decimal(ones(e.seats.0 as nat)) + ")"@
}

impl SeatEquity {
    pub fn new(chips: usize, seats: Seatbit) -> (e: Self)
        ensures
            e == (SeatEquity { chips, seats }),
    {
        SeatEquity { chips, seats }
    }

    /// The equity of a single seat.
    pub fn new_from_seat(chips: usize, seat_number: u8) -> (e: Self)
        ensures
            e.chips == chips,
            forall|i: nat| has_seat(e.seats.0, i) <==> i == seat_number && seat_number < 16,
    {
        SeatEquity { chips, seats: Seatbit::from_seat(seat_number) }
    }

    /// The number of seats that share this equity.
    pub fn count_ones(&self) -> (n: usize)
        ensures
            n == ones(self.seats.0 as nat),
    {
        self.seats.count_ones()
    }

    /// No chips and no seats.
    pub fn is_nada(&self) -> (b: bool)
        ensures
            b == (self.chips == 0 && self.seats.0 == 0),
    {
        self.chips == 0 && self.seats.0 == 0
    }

    /// Whether this equity comes no later than `other` in the equity order.
    pub fn ranks_before_or_with(&self, other: &SeatEquity) -> (b: bool)
        ensures
            b == equity_leq(*self, *other),
    {
        self.chips > other.chips || (self.chips == other.chips && self.seats.0 <= other.seats.0)
    }

    pub fn to_string(&self) -> (s: String)
        ensures
            s@ == seat_equity_text(*self),
    {
        let mut s = String::new();
        proof {
            reveal_strlit("SeatEquity(chips=");
            reveal_strlit(", seats=0b");
            reveal_strlit(", count=");
            reveal_strlit(")");
        }
        s.append("SeatEquity(chips=");
        push_decimal(&mut s, self.chips);
        s.append(", seats=0b");
        push_binary_padded(&mut s, self.seats.0 as u64, 16);
        s.append(", count=");
        push_decimal(&mut s, self.count_ones());
        s.append(")");
        assert(s@ =~= seat_equity_text(*self));
        s
    }
}

/// The equity order is a total order.
pub proof fn lemma_equity_order_total()
    ensures
        total_ordering(|a: SeatEquity, b: SeatEquity| equity_leq(a, b)),
{
    let leq = |a: SeatEquity, b: SeatEquity| equity_leq(a, b);
    assert forall|a: SeatEquity, b: SeatEquity| #[trigger] leq(a, b) && leq(b, a) implies a == b by {
        assert(a.seats.0 == b.seats.0);
        assert(a.seats == b.seats);
    }
}

/// The equities in the equity order; equal items keep no particular order
/// since equal equities are identical.
pub open spec fn sorted_equities(s: Seq<SeatEquity>) -> Seq<SeatEquity> {
    s.sort_by(|a: SeatEquity, b: SeatEquity| equity_leq(a, b))
}

/// Sorts equities into the equity order by insertion.
pub fn sort_equities(v: Vec<SeatEquity>) -> (r: Vec<SeatEquity>)
    ensures
        r@ == sorted_equities(v@),
{
    let ghost leq = |a: SeatEquity, b: SeatEquity| equity_leq(a, b);
    let mut r: Vec<SeatEquity> = Vec::new();
    let mut i: usize = 0;
    while i < v.len()
        invariant
            i <= v.len(),
            sorted_by(r@, leq),
            r@.to_multiset() == v@.subrange(0, i as int).to_multiset(),
            leq == (|a: SeatEquity, b: SeatEquity| equity_leq(a, b)),
        decreases v.len() - i,
    {
        let e = v[i];
        let mut j: usize = 0;
        while j < r.len() && r[j].ranks_before_or_with(&e)
            invariant
                j <= r.len(),
                forall|k: int| 0 <= k < j ==> equity_leq(#[trigger] r@[k], e),
            decreases r.len() - j,
        {
            j = j + 1;
        }
        proof {
            assert(j < r.len() ==> !equity_leq(r@[j as int], e));
        }
        let ghost old_r = r@;
        r.insert(j, e);
        proof {
            assert(v@.subrange(0, i + 1) =~= v@.subrange(0, i as int).push(e));
            assert forall|a: int, b: int| 0 <= a < b < r@.len() implies leq(
                #[trigger] r@[a],
                #[trigger] r@[b],
            ) by {
                if b < j {
                } else if a < j && b == j {
                } else if a < j && b > j {
                    assert(leq(old_r[a], old_r[b - 1]));
                } else if a == j {
                    assert(!equity_leq(old_r[j as int], e));
                    assert(leq(old_r[j as int], old_r[b - 1]));
                } else {
                    assert(leq(old_r[a - 1], old_r[b - 1]));
                }
            }
        }
        i = i + 1;
    }
    proof {
        assert(v@.subrange(0, v@.len() as int) =~= v@);
        lemma_equity_order_total();
        v@.lemma_sort_by_ensures(leq);
        vstd::seq_lib::lemma_sorted_unique(r@, v@.sort_by(leq), leq);
    }
    r
}

} // verus!
