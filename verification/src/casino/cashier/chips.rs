//! Chips as a count: a player's stack, a pot, a bet. Chips only move by
//! coming out of one count and going into another.
use vstd::prelude::*;
use vstd::std_specs::convert::FromSpecImpl;
use vstd::std_specs::ops::{AddSpecImpl, SubSpecImpl};

use crate::error::PKError;
use crate::text::decimal;
use thousands::Separable;

verus! {

/// Three decimal digits of `n`, zero-padded on the left.
/// All the chips of a run of stacks.
pub open spec fn stack_total(s: Seq<Stack>) -> nat
    decreases s.len(),
{
    if s.len() == 0 {
        0
    } else {
        stack_total(s.drop_last()) + (s.last().0 as nat)
    }
}

pub open spec fn three_digits(n: nat) -> Seq<char> {
    seq![
        crate::text::digit_char((n / 100) % 10),
        crate::text::digit_char((n / 10) % 10),
        crate::text::digit_char(n % 10),
    ]
}

/// The decimal digits of `n` with a comma between each group of three,
/// counted from the right.
pub open spec fn with_commas(n: nat) -> Seq<char>
    decreases n,
{
    if n < 1000 {
        decimal(n)
    } else {
        with_commas(n / 1000) + seq![','] + three_digits(n % 1000)
    }
}

/// `Separable::separate_with_commas` of the `thousands` crate on a `usize`:
/// the integer's `Display` digits with a comma inserted between each group of
/// three digits counted from the right.
#[verifier::external_body]
fn separate_with_commas(n: usize) -> (s: String)
    ensures
        s@ == with_commas(n as nat),
{
    n.separate_with_commas()
}

/// A count of chips.
#[derive(Clone, Copy, Debug, PartialEq, Eq, Hash)]
pub struct Chips(pub usize);

impl Default for Chips {
    fn default() -> (c: Chips)
        ensures
            c.0 == 0,
    {
        Chips(0)
    }
}

impl Chips {
    pub fn new(stack: usize) -> (c: Chips)
        ensures
            c.0 == stack,
    {
        Chips(stack)
    }

    pub fn stack(&self) -> (n: usize)
        ensures
            n == self.0,
    {
        self.0
    }

    pub fn size(&self) -> (n: usize)
        ensures
            n == self.0,
    {
        self.0
    }

    pub fn is_empty(&self) -> (b: bool)
        ensures
            b == (self.0 == 0),
    {
        self.0 == 0
    }

    /// Takes `chips` out of this count. Refused, leaving the count as it was,
    /// when the count is empty or holds fewer than `chips`.
    pub fn remove(&mut self, chips: Chips) -> (r: Option<Chips>)
        ensures
            (old(self).0 == 0 || chips.0 > old(self).0) ==> r is None && *final(self)
                == *old(self),
            !(old(self).0 == 0 || chips.0 > old(self).0) ==> r == Some(chips) && final(self).0
                == old(self).0 - chips.0,
    {
        if self.is_empty() || chips.stack() > self.stack() {
            None
        } else {
            self.0 = self.0 - chips.0;
            Some(chips)
        }
    }

    /// Pushes the whole count in. Refused with `Busted` when it is empty.
    pub fn all_in(&mut self) -> (r: Result<Chips, PKError>)
        ensures
            old(self).0 == 0 ==> r == Err::<Chips, PKError>(PKError::Busted) && *final(self)
                == *old(self),
            old(self).0 > 0 ==> r == Ok::<Chips, PKError>(*old(self)) && final(self).0 == 0,
    {
        if self.size() == 0 {
            Err(PKError::Busted)
        } else {
            let all = *self;
            self.0 = 0;
            Ok(all)
        }
    }

    /// Takes `amount` out as a bet. Refused with `InsufficientChips`, leaving
    /// the count as it was, when it holds less than `amount`.
    pub fn bet(&mut self, amount: usize) -> (r: Result<Chips, PKError>)
        ensures
            old(self).0 < amount ==> r == Err::<Chips, PKError>(PKError::InsufficientChips)
                && *final(self) == *old(self),
            old(self).0 >= amount ==> r == Ok::<Chips, PKError>(Chips(amount)) && final(self).0
                == old(self).0 - amount,
    {
        if self.size() < amount {
            Err(PKError::InsufficientChips)
        } else {
            self.0 = self.0 - amount;
            Ok(Chips::new(amount))
        }
    }

    /// Adds `winnings` to the count and returns the new count.
    pub fn wins(&mut self, winnings: Chips) -> (n: usize)
        requires
            old(self).0 + winnings.0 <= usize::MAX,
        ensures
            final(self).0 == old(self).0 + winnings.0,
            n == final(self).0,
    {
        self.0 = self.0 + winnings.0;
        self.0
    }

    /// The count with a comma between each group of three digits.
    pub fn to_string(&self) -> (s: String)
        ensures
            s@ == with_commas(self.0 as nat),
    {
        separate_with_commas(self.0)
    }
}

impl core::ops::Add for Chips {
    type Output = Chips;

    fn add(self, rhs: Chips) -> (c: Chips) {
        Chips(self.0 + rhs.0)
    }
}

impl AddSpecImpl for Chips {
    open spec fn obeys_add_spec() -> bool {
        true
    }

    open spec fn add_req(self, rhs: Chips) -> bool {
        self.0 + rhs.0 <= usize::MAX
    }

    open spec fn add_spec(self, rhs: Chips) -> Chips {
        Chips((self.0 + rhs.0) as usize)
    }
}

impl core::ops::Sub for Chips {
    type Output = Chips;

    fn sub(self, rhs: Chips) -> (c: Chips) {
        Chips(self.0 - rhs.0)
    }
}

impl SubSpecImpl for Chips {
    open spec fn obeys_sub_spec() -> bool {
        true
    }

    open spec fn sub_req(self, rhs: Chips) -> bool {
        rhs.0 <= self.0
    }

    open spec fn sub_spec(self, rhs: Chips) -> Chips {
        Chips((self.0 - rhs.0) as usize)
    }
}

impl From<usize> for Chips {
    fn from(value: usize) -> (c: Chips) {
        Chips(value)
    }
}

impl FromSpecImpl<usize> for Chips {
    open spec fn obeys_from_spec() -> bool {
        true
    }

    open spec fn from_spec(v: usize) -> Chips {
        Chips(v)
    }
}

impl From<u8> for Chips {
    fn from(value: u8) -> (c: Chips) {
        Chips(value as usize)
    }
}

impl FromSpecImpl<u8> for Chips {
    open spec fn obeys_from_spec() -> bool {
        true
    }

    open spec fn from_spec(v: u8) -> Chips {
        Chips(v as usize)
    }
}

impl From<u16> for Chips {
    fn from(value: u16) -> (c: Chips) {
        Chips(value as usize)
    }
}

impl FromSpecImpl<u16> for Chips {
    open spec fn obeys_from_spec() -> bool {
        true
    }

    open spec fn from_spec(v: u16) -> Chips {
        Chips(v as usize)
    }
}

impl From<u32> for Chips {
    fn from(value: u32) -> (c: Chips) {
        Chips(value as usize)
    }
}

impl FromSpecImpl<u32> for Chips {
    open spec fn obeys_from_spec() -> bool {
        true
    }

    open spec fn from_spec(v: u32) -> Chips {
        Chips(v as usize)
    }
}

/// A pile of chips that may be topped up in place. Chips come into it only
/// out of another `Stack` handed over by value.
#[derive(Clone, Copy, Debug, PartialEq, Eq, Hash)]
pub struct Stack(pub usize);

impl Default for Stack {
    fn default() -> (s: Stack)
        ensures
            s.0 == 0,
    {
        Stack(0)
    }
}

impl Stack {
    pub fn new(stack: usize) -> (s: Stack)
        ensures
            s.0 == stack,
    {
        Stack(stack)
    }

    /// Moves every chip of `chips` onto this stack.
    pub fn add_to(&mut self, chips: Stack)
        requires
            old(self).0 + chips.0 <= usize::MAX,
        ensures
            final(self).0 == old(self).0 + chips.0,
    {
        self.0 = self.0 + chips.0;
    }

    pub fn count(&self) -> (n: usize)
        ensures
            n == self.0,
    {
        self.0
    }

    pub fn size(&self) -> (n: usize)
        ensures
            n == self.0,
    {
        self.0
    }

    pub fn is_empty(&self) -> (b: bool)
        ensures
            b == (self.0 == 0),
    {
        self.0 == 0
    }

    /// Takes `chips` off this stack; refused, leaving it as it was, when it
    /// holds fewer than `chips`.
    pub fn remove(&mut self, chips: Stack) -> (r: Option<Stack>)
        ensures
            old(self).0 < chips.0 ==> r is None && *final(self) == *old(self),
            old(self).0 >= chips.0 ==> r == Some(chips) && final(self).0 == old(self).0
                - chips.0,
    {
        if self.count() < chips.count() {
            None
        } else {
            self.0 = self.0 - chips.0;
            Some(chips)
        }
    }

    /// Replaces the stack's count with that of `chips`.
    pub fn set(&mut self, chips: Stack)
        ensures
            final(self).0 == chips.0,
    {
        self.0 = chips.0;
    }

    /// Takes every chip off the stack, leaving it empty.
    pub fn take(&mut self) -> (s: Stack)
        ensures
            s.0 == old(self).0,
            final(self).0 == 0,
    {
        let s = Stack(self.0);
        self.0 = 0;
        s
    }

    /// Pushes the whole stack in. Refused with `Busted` when it is empty.
    pub fn all_in(&mut self) -> (r: Result<Stack, PKError>)
        ensures
            old(self).0 == 0 ==> r == Err::<Stack, PKError>(PKError::Busted) && *final(self)
                == *old(self),
            old(self).0 > 0 ==> r == Ok::<Stack, PKError>(*old(self)) && final(self).0 == 0,
    {
        if self.size() == 0 {
            Err(PKError::Busted)
        } else {
            let all = *self;
            self.0 = 0;
            Ok(all)
        }
    }

    /// Takes `amount` off as a bet. Refused with `InsufficientChips`, leaving
    /// the stack as it was, when it holds less than `amount`.
    pub fn bet(&mut self, amount: usize) -> (r: Result<Stack, PKError>)
        ensures
            old(self).0 < amount ==> r == Err::<Stack, PKError>(PKError::InsufficientChips)
                && *final(self) == *old(self),
            old(self).0 >= amount ==> r == Ok::<Stack, PKError>(Stack(amount)) && final(self).0
                == old(self).0 - amount,
    {
        if self.size() < amount {
            Err(PKError::InsufficientChips)
        } else {
            self.0 = self.0 - amount;
            Ok(Stack::new(amount))
        }
    }

    /// Adds `winnings` to the stack and returns the new count.
    pub fn wins(&mut self, winnings: Stack) -> (n: usize)
        requires
            old(self).0 + winnings.0 <= usize::MAX,
        ensures
            final(self).0 == old(self).0 + winnings.0,
            n == final(self).0,
    {
        self.add_to(winnings);
        self.0
    }

    /// Splits the stack into `n` shares as even as whole chips allow: the
    /// first `count % n` shares hold one chip more than the rest.
    pub fn divvy_up(&self, n: usize) -> (shares: Vec<Stack>)
        requires
            n > 0,
        ensures
            shares@.len() == n,
            stack_total(shares@) == self.0,
            forall|i: int|
                0 <= i < n ==> (#[trigger] shares@[i]).0 == self.0 / n + (if i < self.0 % n {
                    1int
                } else {
                    0int
                }),
    {
        let base = self.0 / n;
        let extra = self.0 % n;
        proof {
            assert(n * base + extra == self.0) by (nonlinear_arith)
                requires
                    base == self.0 / n,
                    extra == self.0 % n,
                    n > 0,
            ;
        }
        let mut shares: Vec<Stack> = Vec::new();
        let mut i: usize = 0;
        while i < n
            invariant
                i <= n,
                base == self.0 / n,
                extra == self.0 % n,
                extra < n,
                shares@.len() == i,
                forall|j: int|
                    0 <= j < i ==> (#[trigger] shares@[j]).0 == base + (if j < extra {
                        1int
                    } else {
                        0int
                    }),
                stack_total(shares@) == i * base + (if i < extra {
                    i as int
                } else {
                    extra as int
                }),
                n * base + extra == self.0,
            decreases n - i,
        {
            let share = if i < extra {
                assert(base < usize::MAX) by (nonlinear_arith)
                    requires
                        base == self.0 / n,
                        extra == self.0 % n,
                        0 < extra < n,
                        self.0 <= usize::MAX,
                ;
                base + 1
            } else {
                base
            };
            let ghost before = shares@;
            shares.push(Stack(share));
            proof {
                assert(shares@.drop_last() =~= before);
                assert((i + 1) * base == i * base + base) by (nonlinear_arith);
            }
            i = i + 1;
        }
        shares
    }

    /// The count with a comma between each group of three digits.
    pub fn to_string(&self) -> (s: String)
        ensures
            s@ == with_commas(self.0 as nat),
    {
        separate_with_commas(self.0)
    }
}

impl core::ops::Add for Stack {
    type Output = Stack;

    fn add(self, rhs: Stack) -> (s: Stack) {
        Stack(self.0 + rhs.0)
    }
}

impl AddSpecImpl for Stack {
    open spec fn obeys_add_spec() -> bool {
        true
    }

    open spec fn add_req(self, rhs: Stack) -> bool {
        self.0 + rhs.0 <= usize::MAX
    }

    open spec fn add_spec(self, rhs: Stack) -> Stack {
        Stack((self.0 + rhs.0) as usize)
    }
}

impl core::ops::Sub for Stack {
    type Output = Stack;

    fn sub(self, rhs: Stack) -> (s: Stack) {
        Stack(self.0 - rhs.0)
    }
}

impl SubSpecImpl for Stack {
    open spec fn obeys_sub_spec() -> bool {
        true
    }

    open spec fn sub_req(self, rhs: Stack) -> bool {
        rhs.0 <= self.0
    }

    open spec fn sub_spec(self, rhs: Stack) -> Stack {
        Stack((self.0 - rhs.0) as usize)
    }
}

impl From<usize> for Stack {
    fn from(value: usize) -> (s: Stack) {
        Stack(value)
    }
}

impl FromSpecImpl<usize> for Stack {
    open spec fn obeys_from_spec() -> bool {
        true
    }

    open spec fn from_spec(v: usize) -> Stack {
        Stack(v)
    }
}

impl From<u8> for Stack {
    fn from(value: u8) -> (s: Stack) {
        Stack(value as usize)
    }
}

impl FromSpecImpl<u8> for Stack {
    open spec fn obeys_from_spec() -> bool {
        true
    }

    open spec fn from_spec(v: u8) -> Stack {
        Stack(v as usize)
    }
}

impl From<u16> for Stack {
    fn from(value: u16) -> (s: Stack) {
        Stack(value as usize)
    }
}

impl FromSpecImpl<u16> for Stack {
    open spec fn obeys_from_spec() -> bool {
        true
    }

    open spec fn from_spec(v: u16) -> Stack {
        Stack(v as usize)
    }
}

impl From<u32> for Stack {
    fn from(value: u32) -> (s: Stack) {
        Stack(value as usize)
    }
}

impl FromSpecImpl<u32> for Stack {
    open spec fn obeys_from_spec() -> bool {
        true
    }

    open spec fn from_spec(v: u32) -> Stack {
        Stack(v as usize)
    }
}

} // verus!
