//! A set of seats as a sixteen-bit mask: bit `i` stands for seat `i`.
use vstd::prelude::*;
use vstd::std_specs::convert::FromSpecImpl;
use vstd::std_specs::ops::{AddSpecImpl, BitAndSpecImpl, BitOrSpecImpl, SubSpecImpl};

use crate::text::{binary, push_binary};

verus! {

/// A set of seats; bit `i` is seat `i`.
#[derive(Clone, Copy, Debug, PartialEq, Eq, Structural, Hash, Default)]
pub struct Seatbit(pub u16);

/// Whether seat `i` is in the mask `b`.
pub open spec fn has_seat(b: u16, i: nat) -> bool {
    i < 16 && (b >> (i as u16)) & 1u16 == 1u16
}

/// The number of seats in the mask `b`.
pub open spec fn ones(b: nat) -> nat
    decreases b,
{
    if b == 0 {
        0
    } else {
        b % 2 + ones(b / 2)
    }
}

/// Two to the power `k`.
pub open spec fn p2(k: nat) -> nat
    decreases k,
{
    if k == 0 {
        1
    } else {
        2 * p2((k - 1) as nat)
    }
}

/// A number below two to the `k` has at most `k` one bits.
pub proof fn lemma_ones_bound(b: nat, k: nat)
    requires
        b < p2(k),
    ensures
        ones(b) <= k,
    decreases k,
{
    if b > 0 {
        lemma_ones_bound(b / 2, (k - 1) as nat);
    }
}

/// The empty mask holds no seat.
pub proof fn lemma_none_has()
    ensures
        forall|i: nat| !has_seat(0u16, i),
{
    assert forall|i: nat| !has_seat(0u16, i) by {
        if i < 16 {
            let j: u16 = i as u16;
            assert((0u16 >> j) & 1u16 == 0u16) by (bit_vector);
        }
    }
}

/// The mask of a single seat holds that seat alone.
pub proof fn lemma_from_spec_has(seat: u8)
    ensures
        forall|i: nat| has_seat(Seatbit::from_spec(seat).0, i) <==> i == seat && seat < 16,
{
    if seat < 16 {
        let s: u16 = seat as u16;
        assert forall|i: nat| has_seat(1u16 << s, i) <==> i == seat by {
            if i < 16 {
                let j: u16 = i as u16;
                assert(((1u16 << s) >> j) & 1u16 == 1u16 <==> j == s) by (bit_vector)
                    requires
                        s < 16,
                        j < 16,
                ;
            }
        }
    } else {
        lemma_none_has();
    }
}

impl Seatbit {
    /// The empty mask: chips that no seat in the hand can claim.
    pub fn none() -> (b: Seatbit)
        ensures
            b.0 == 0,
    {
        Seatbit(0)
    }

    /// How many seats a mask can hold.
    pub const CAPACITY: u8 = 16;

    /// The mask holding only seat `seat`; empty for a seat past the capacity.
    pub open spec fn from_spec(seat: u8) -> Seatbit {
        if seat < 16 {
            Seatbit(1u16 << (seat as u16))
        } else {
            Seatbit(0)
        }
    }

    /// The mask holding only seat `seat`; empty for a seat past the capacity.
    pub fn from_seat(seat: u8) -> (b: Seatbit)
        ensures
            b == Seatbit::from_spec(seat),
            seat < 16 ==> b.0 == 1u16 << (seat as u16),
            seat >= 16 ==> b.0 == 0,
            forall|i: nat| has_seat(b.0, i) <==> i == seat && seat < 16,
    {
        proof {
            lemma_from_spec_has(seat);
        }
        if seat < 16 {
            let s: u16 = seat as u16;
            Seatbit(1u16 << s)
        } else {
            Seatbit(0)
        }
    }

    /// Whether seat `seat` is in the mask.
    pub fn contains(&self, seat: u8) -> (b: bool)
        ensures
            b == has_seat(self.0, seat as nat),
    {
        if seat < 16 {
            let s: u16 = seat as u16;
            (self.0 >> s) & 1u16 == 1u16
        } else {
            false
        }
    }

    /// The number of seats in the mask.
    pub fn count_ones(&self) -> (n: usize)
        ensures
            n == ones(self.0 as nat),
            n <= 16,
    {
        proof {
            reveal_with_fuel(p2, 17);
            assert(p2(16) == 65536);
            lemma_ones_bound(self.0 as nat, 16);
        }
        let mut b: u16 = self.0;
        let mut n: usize = 0;
        while b > 0
            invariant
                n + ones(b as nat) == ones(self.0 as nat),
                n + (b as nat) <= self.0 as nat,
                ones(self.0 as nat) <= 16,
            decreases b,
        {
            n = n + (b % 2) as usize;
            b = b / 2;
        }
        n
    }

    /// The seats of both masks.
    pub fn union(self, rhs: Seatbit) -> (b: Seatbit)
        ensures
            b.0 == self.0 | rhs.0,
            forall|i: nat| has_seat(b.0, i) <==> has_seat(self.0, i) || has_seat(rhs.0, i),
    {
        let b = self.0 | rhs.0;
        proof {
            lemma_or_has(self.0, rhs.0);
        }
        Seatbit(b)
    }

    /// The seats of this mask that are not in `rhs`.
    pub fn difference(self, rhs: Seatbit) -> (b: Seatbit)
        ensures
            b.0 == self.0 & !rhs.0,
            forall|i: nat| has_seat(b.0, i) <==> has_seat(self.0, i) && !has_seat(rhs.0, i),
    {
        let b = self.0 & !rhs.0;
        proof {
            assert forall|i: nat| has_seat(b, i) <==> has_seat(self.0, i) && !has_seat(rhs.0, i) by {
                if i < 16 {
                    let j: u16 = i as u16;
                    let x = self.0;
                    let y = rhs.0;
                    assert(((x & !y) >> j) & 1u16 == 1u16 <==> (x >> j) & 1u16 == 1u16 && !((y
                        >> j) & 1u16 == 1u16)) by (bit_vector)
                        requires
                            j < 16,
                    ;
                }
            }
        }
        Seatbit(b)
    }

    /// The seats in both masks.
    pub fn intersection(self, rhs: Seatbit) -> (b: Seatbit)
        ensures
            b.0 == self.0 & rhs.0,
            forall|i: nat| has_seat(b.0, i) <==> has_seat(self.0, i) && has_seat(rhs.0, i),
    {
        let b = self.0 & rhs.0;
        proof {
            assert forall|i: nat| has_seat(b, i) <==> has_seat(self.0, i) && has_seat(rhs.0, i) by {
                if i < 16 {
                    let j: u16 = i as u16;
                    let x = self.0;
                    let y = rhs.0;
                    assert(((x & y) >> j) & 1u16 == 1u16 <==> (x >> j) & 1u16 == 1u16 && (y >> j)
                        & 1u16 == 1u16) by (bit_vector)
                        requires
                            j < 16,
                    ;
                }
            }
        }
        Seatbit(b)
    }

    /// The mask as binary digits, without leading zeros.
    pub fn to_string(&self) -> (s: String)
        ensures
            s@ == binary(self.0 as nat),
    {
        let mut s = String::new();
        push_binary(&mut s, self.0 as u64);
        assert(s@ =~= binary(self.0 as nat));
        s
    }
}

/// A seat is in the union of two masks exactly when it is in one of them.
pub proof fn lemma_or_has(x: u16, y: u16)
    ensures
        forall|i: nat| has_seat(x | y, i) <==> has_seat(x, i) || has_seat(y, i),
{
    assert forall|i: nat| has_seat(x | y, i) <==> has_seat(x, i) || has_seat(y, i) by {
        if i < 16 {
            let j: u16 = i as u16;
            assert(((x | y) >> j) & 1u16 == 1u16 <==> (x >> j) & 1u16 == 1u16 || (y >> j) & 1u16
                == 1u16) by (bit_vector)
                requires
                    j < 16,
            ;
        }
    }
}

impl From<u8> for Seatbit {
    fn from(seat: u8) -> (b: Seatbit) {
        Seatbit::from_seat(seat)
    }
}

impl FromSpecImpl<u8> for Seatbit {
    open spec fn obeys_from_spec() -> bool {
        true
    }

    open spec fn from_spec(seat: u8) -> Seatbit {
        if seat < 16 {
            Seatbit(1u16 << (seat as u16))
        } else {
            Seatbit(0)
        }
    }
}

impl FromSpecImpl<usize> for Seatbit {
    open spec fn obeys_from_spec() -> bool {
        true
    }

    open spec fn from_spec(seat: usize) -> Seatbit {
        if seat < 16 {
            Seatbit(1u16 << (seat as u16))
        } else {
            Seatbit(0)
        }
    }
}

impl From<usize> for Seatbit {
    fn from(seat: usize) -> (b: Seatbit) {
        if seat < 16 {
            Seatbit::from_seat(seat as u8)
        } else {
            Seatbit(0)
        }
    }
}

impl core::ops::Add for Seatbit {
    type Output = Seatbit;

    /// Set union.
    fn add(self, rhs: Seatbit) -> (b: Seatbit) {
        Seatbit(self.0 | rhs.0)
    }
}

impl AddSpecImpl for Seatbit {
    open spec fn obeys_add_spec() -> bool {
        true
    }

    open spec fn add_req(self, rhs: Seatbit) -> bool {
        true
    }

    open spec fn add_spec(self, rhs: Seatbit) -> Seatbit {
        Seatbit(self.0 | rhs.0)
    }
}

impl core::ops::Sub for Seatbit {
    type Output = Seatbit;

    /// Set difference.
    fn sub(self, rhs: Seatbit) -> (b: Seatbit) {
        Seatbit(self.0 & !rhs.0)
    }
}

impl SubSpecImpl for Seatbit {
    open spec fn obeys_sub_spec() -> bool {
        true
    }

    open spec fn sub_req(self, rhs: Seatbit) -> bool {
        true
    }

    open spec fn sub_spec(self, rhs: Seatbit) -> Seatbit {
        Seatbit(self.0 & !rhs.0)
    }
}

impl core::ops::BitOr for Seatbit {
    type Output = Seatbit;

    fn bitor(self, rhs: Seatbit) -> (b: Seatbit) {
        Seatbit(self.0 | rhs.0)
    }
}

impl BitOrSpecImpl for Seatbit {
    open spec fn obeys_bitor_spec() -> bool {
        true
    }

    open spec fn bitor_req(self, rhs: Seatbit) -> bool {
        true
    }

    open spec fn bitor_spec(self, rhs: Seatbit) -> Seatbit {
        Seatbit(self.0 | rhs.0)
    }
}

impl core::ops::BitAnd for Seatbit {
    type Output = Seatbit;

    fn bitand(self, rhs: Seatbit) -> (b: Seatbit) {
        Seatbit(self.0 & rhs.0)
    }
}

impl BitAndSpecImpl for Seatbit {
    open spec fn obeys_bitand_spec() -> bool {
        true
    }

    open spec fn bitand_req(self, rhs: Seatbit) -> bool {
        true
    }

    open spec fn bitand_spec(self, rhs: Seatbit) -> Seatbit {
        Seatbit(self.0 & rhs.0)
    }
}

impl core::ops::AddAssign for Seatbit {
    fn add_assign(&mut self, rhs: Seatbit)
        ensures
            final(self).0 == old(self).0 | rhs.0,
    {
        self.0 = self.0 | rhs.0;
    }
}

impl core::ops::SubAssign for Seatbit {
    fn sub_assign(&mut self, rhs: Seatbit)
        ensures
            final(self).0 == old(self).0 & !rhs.0,
    {
        self.0 = self.0 & !rhs.0;
    }
}

impl core::ops::BitOrAssign for Seatbit {
    fn bitor_assign(&mut self, rhs: Seatbit)
        ensures
            final(self).0 == old(self).0 | rhs.0,
    {
        self.0 = self.0 | rhs.0;
    }
}

} // verus!
