//! Sets of Sudoku digits, held as bit masks.

use vstd::prelude::*;

verus! {

/// Whether `d` is one of the nine digits a cell may hold.
pub open spec fn is_digit(d: u8) -> bool {
    1 <= d <= 9
}

/// Whether every member of `s` is a digit.
pub open spec fn only_digits(s: Set<u8>) -> bool {
    forall|d: u8| #[trigger] s.contains(d) ==> is_digit(d)
}

/// The members of `s` that are smaller than `n`.
pub open spec fn digits_below(s: Set<u8>, n: u8) -> Set<u8> {
    Set::new(|d: u8| s.contains(d) && d < n)
}

/// One if `d` is a member of `s`, else zero.
pub open spec fn one_if(s: Set<u8>, d: u8) -> nat {
    if s.contains(d) {
        1
    } else {
        0
    }
}

/// The number of digits in `s`, written out digit by digit.
pub open spec fn digit_count(s: Set<u8>) -> nat {
    one_if(s, 1) + one_if(s, 2) + one_if(s, 3) + one_if(s, 4) + one_if(s, 5) + one_if(s, 6)
        + one_if(s, 7) + one_if(s, 8) + one_if(s, 9)
}

proof fn lemma_below_step(s: Set<u8>, n: u8)
    requires
        digits_below(s, n).finite(),
        n < 255,
    ensures
        digits_below(s, (n + 1) as u8).finite(),
        digits_below(s, (n + 1) as u8).len() == digits_below(s, n).len() + one_if(s, n),
{
    let lo = digits_below(s, n);
    let hi = digits_below(s, (n + 1) as u8);
    if s.contains(n) {
        assert(hi =~= lo.insert(n));
    } else {
        assert(hi =~= lo);
    }
}

/// A set of digits is finite, and its cardinality is the digit-by-digit count.
pub proof fn lemma_digit_count(s: Set<u8>)
    requires
        only_digits(s),
    ensures
        s.finite(),
        s.len() == digit_count(s),
        s.len() <= 9,
{
    assert(digits_below(s, 1) =~= Set::<u8>::empty());
    lemma_below_step(s, 1);
    lemma_below_step(s, 2);
    lemma_below_step(s, 3);
    lemma_below_step(s, 4);
    lemma_below_step(s, 5);
    lemma_below_step(s, 6);
    lemma_below_step(s, 7);
    lemma_below_step(s, 8);
    lemma_below_step(s, 9);
    assert(digits_below(s, 10) =~= s);
}

/// A subset of a digit set has no more members, and fewer if it lacks one of them.
pub proof fn lemma_digit_subset(small: Set<u8>, big: Set<u8>)
    requires
        only_digits(big),
        small.subset_of(big),
    ensures
        small.len() <= big.len(),
        small != big ==> small.len() < big.len(),
{
    lemma_digit_count(small);
    lemma_digit_count(big);
    assert forall|d: u8| one_if(small, d) <= one_if(big, d) by {
        if small.contains(d) {
            assert(big.contains(d));
        }
    }
    if small != big {
        assert(!(small =~= big));
        let d = choose|d: u8| small.contains(d) != big.contains(d);
        assert(big.contains(d) && !small.contains(d));
        assert(one_if(small, d) < one_if(big, d));
    }
}

/// A set of digits that is not empty has a member.
pub proof fn lemma_some_member(c: Set<u8>) -> (d: u8)
    requires
        only_digits(c),
        c.len() != 0,
    ensures
        c.contains(d),
        is_digit(d),
{
    lemma_digit_count(c);
    assert(c.contains(1) || c.contains(2) || c.contains(3) || c.contains(4) || c.contains(5)
        || c.contains(6) || c.contains(7) || c.contains(8) || c.contains(9));
    choose|d: u8| c.contains(d) && is_digit(d)
}

/// A set of one digit has no second member.
pub proof fn lemma_one_member(c: Set<u8>, x: u8, y: u8)
    requires
        only_digits(c),
        c.len() == 1,
        c.contains(x),
        c.contains(y),
    ensures
        x == y,
{
    lemma_digit_count(c);
    lemma_digit_count(c.remove(x));
    if x != y {
        assert(c.remove(x).contains(y));
    }
}

/// A set of two digits has no third member.
pub proof fn lemma_two_members(c: Set<u8>, x: u8, y: u8, d: u8)
    requires
        only_digits(c),
        c.len() == 2,
        c.contains(x),
        c.contains(y),
        x != y,
        c.contains(d),
    ensures
        d == x || d == y,
{
    lemma_digit_count(c);
    let rest = c.remove(x).remove(y);
    lemma_digit_count(c.remove(x));
    lemma_digit_count(rest);
    if d != x && d != y {
        assert(rest.contains(d));
    }
}

/// A set of three digits has no fourth member.
pub proof fn lemma_three_members(c: Set<u8>, x: u8, y: u8, z: u8, d: u8)
    requires
        only_digits(c),
        c.len() == 3,
        c.contains(x),
        c.contains(y),
        c.contains(z),
        x != y,
        x != z,
        y != z,
        c.contains(d),
    ensures
        d == x || d == y || d == z,
{
    lemma_digit_count(c);
    let rest = c.remove(x).remove(y).remove(z);
    lemma_digit_count(c.remove(x));
    lemma_digit_count(c.remove(x).remove(y));
    lemma_digit_count(rest);
    if d != x && d != y && d != z {
        assert(rest.contains(d));
    }
}

/// The set of two different digits has two members.
pub proof fn lemma_pair_len(a: u8, b: u8)
    requires
        is_digit(a),
        is_digit(b),
        a != b,
    ensures
        only_digits(set![a, b]),
        set![a, b].len() == 2,
{
    lemma_digit_count(set![a, b]);
}

/// A set of two digits is the set of any two different members of it.
pub proof fn lemma_pair_of(c: Set<u8>, a: u8, d: u8)
    requires
        only_digits(c),
        c.len() == 2,
        c.contains(a),
        c.contains(d),
        a != d,
    ensures
        c == set![a, d],
{
    assert forall|e: u8| c.contains(e) <==> set![a, d].contains(e) by {
        if c.contains(e) {
            lemma_two_members(c, a, d, e);
        }
    }
    assert(c =~= set![a, d]);
}

/// A set of digits between 1 and 9. Bit `d` of the mask is set when `d` is a member.
#[derive(Clone, Copy, Debug)]
pub struct DigitSet {
    bits: u16,
}

impl View for DigitSet {
    type V = Set<u8>;

    closed spec fn view(&self) -> Set<u8> {
        Set::new(|d: u8| is_digit(d) && self.bits & (1u16 << d) != 0)
    }
}

proof fn lemma_bit_without(m: u16, d: u8, e: u8)
    requires
        1 <= d <= 9,
        1 <= e <= 9,
    ensures
        ((m & !(1u16 << d)) & (1u16 << e) != 0) == (m & (1u16 << e) != 0 && e != d),
{
    assert(((m & !(1u16 << d)) & (1u16 << e) != 0) == (m & (1u16 << e) != 0 && e != d))
        by (bit_vector)
        requires
            1 <= d <= 9,
            1 <= e <= 9,
    ;
}

proof fn lemma_bit_with(m: u16, d: u8, e: u8)
    requires
        1 <= d <= 9,
        1 <= e <= 9,
    ensures
        ((m | (1u16 << d)) & (1u16 << e) != 0) == (m & (1u16 << e) != 0 || e == d),
{
    assert(((m | (1u16 << d)) & (1u16 << e) != 0) == (m & (1u16 << e) != 0 || e == d))
        by (bit_vector)
        requires
            1 <= d <= 9,
            1 <= e <= 9,
    ;
}

proof fn lemma_bit_masked(m: u16, e: u8)
    requires
        1 <= e <= 9,
    ensures
        ((m & 0x3FEu16) & (1u16 << e) != 0) == (m & (1u16 << e) != 0),
        0x3FEu16 & (1u16 << e) != 0,
        0u16 & (1u16 << e) == 0,
{
    assert(((m & 0x3FEu16) & (1u16 << e) != 0) == (m & (1u16 << e) != 0)) by (bit_vector)
        requires
            1 <= e <= 9,
    ;
    assert(0x3FEu16 & (1u16 << e) != 0) by (bit_vector)
        requires
            1 <= e <= 9,
    ;
    assert(0u16 & (1u16 << e) == 0) by (bit_vector);
}

proof fn lemma_bits_agree(m: u16, n: u16)
    requires
        forall|e: u8| 1 <= e <= 9 ==> (m & (1u16 << e) != 0) == (n & (1u16 << e) != 0),
    ensures
        m & 0x3FEu16 == n & 0x3FEu16,
{
    assert((m & (1u16 << 1u8) != 0) == (n & (1u16 << 1u8) != 0));
    assert((m & (1u16 << 2u8) != 0) == (n & (1u16 << 2u8) != 0));
    assert((m & (1u16 << 3u8) != 0) == (n & (1u16 << 3u8) != 0));
    assert((m & (1u16 << 4u8) != 0) == (n & (1u16 << 4u8) != 0));
    assert((m & (1u16 << 5u8) != 0) == (n & (1u16 << 5u8) != 0));
    assert((m & (1u16 << 6u8) != 0) == (n & (1u16 << 6u8) != 0));
    assert((m & (1u16 << 7u8) != 0) == (n & (1u16 << 7u8) != 0));
    assert((m & (1u16 << 8u8) != 0) == (n & (1u16 << 8u8) != 0));
    assert((m & (1u16 << 9u8) != 0) == (n & (1u16 << 9u8) != 0));
    assert(m & 0x3FEu16 == n & 0x3FEu16) by (bit_vector)
        requires
            (m & (1u16 << 1u8) != 0) == (n & (1u16 << 1u8) != 0),
            (m & (1u16 << 2u8) != 0) == (n & (1u16 << 2u8) != 0),
            (m & (1u16 << 3u8) != 0) == (n & (1u16 << 3u8) != 0),
            (m & (1u16 << 4u8) != 0) == (n & (1u16 << 4u8) != 0),
            (m & (1u16 << 5u8) != 0) == (n & (1u16 << 5u8) != 0),
            (m & (1u16 << 6u8) != 0) == (n & (1u16 << 6u8) != 0),
            (m & (1u16 << 7u8) != 0) == (n & (1u16 << 7u8) != 0),
            (m & (1u16 << 8u8) != 0) == (n & (1u16 << 8u8) != 0),
            (m & (1u16 << 9u8) != 0) == (n & (1u16 << 9u8) != 0),
    ;
}

impl DigitSet {
    /// Every member of a digit set is a digit, so the set is finite with at most nine members.
    pub proof fn lemma_view(self)
        ensures
            only_digits(self@),
            self@.finite(),
            self@.len() <= 9,
            self@.len() == digit_count(self@),
    {
        lemma_digit_count(self@);
    }

    /// The empty set.
    pub fn empty() -> (s: DigitSet)
        ensures
            s@ == Set::<u8>::empty(),
    {
        let s = DigitSet { bits: 0 };
        proof {
            assert forall|d: u8| !s@.contains(d) by {
                if is_digit(d) {
                    lemma_bit_masked(0, d);
                }
            }
            assert(s@ =~= Set::<u8>::empty());
        }
        s
    }

    /// The set of all nine digits.
    pub fn full() -> (s: DigitSet)
        ensures
            forall|d: u8| s@.contains(d) <==> is_digit(d),
    {
        let s = DigitSet { bits: 0x3FE };
        proof {
            assert forall|d: u8| s@.contains(d) <==> is_digit(d) by {
                if is_digit(d) {
                    lemma_bit_masked(0, d);
                }
            }
        }
        s
    }

    /// Whether `d` is a member.
    pub fn contains(&self, d: u8) -> (b: bool)
        ensures
            b == self@.contains(d),
    {
        1 <= d && d <= 9 && (self.bits & (1u16 << d)) != 0
    }

    /// The set with `d` added. A `d` that is no digit leaves the set as it is.
    pub fn with(&self, d: u8) -> (s: DigitSet)
        ensures
            s@ == if is_digit(d) {
                self@.insert(d)
            } else {
                self@
            },
    {
        if 1 <= d && d <= 9 {
            let s = DigitSet { bits: self.bits | (1u16 << d) };
            proof {
                assert forall|e: u8| s@.contains(e) == self@.insert(d).contains(e) by {
                    if is_digit(e) {
                        lemma_bit_with(self.bits, d, e);
                    }
                }
                assert(s@ =~= self@.insert(d));
            }
            s
        } else {
            *self
        }
    }

    /// The set with `d` taken out.
    pub fn without(&self, d: u8) -> (s: DigitSet)
        ensures
            s@ == self@.remove(d),
    {
        if 1 <= d && d <= 9 {
            let s = DigitSet { bits: self.bits & !(1u16 << d) };
            proof {
                assert forall|e: u8| s@.contains(e) == self@.remove(d).contains(e) by {
                    if is_digit(e) {
                        lemma_bit_without(self.bits, d, e);
                    }
                }
                assert(s@ =~= self@.remove(d));
            }
            s
        } else {
            proof {
                assert(self@ =~= self@.remove(d));
            }
            *self
        }
    }

    /// Whether the two sets have the same members.
    pub fn equals(&self, other: &DigitSet) -> (b: bool)
        ensures
            b == (self@ == other@),
    {
        let b = (self.bits & 0x3FE) == (other.bits & 0x3FE);
        proof {
            if b {
                assert forall|e: u8| self@.contains(e) == other@.contains(e) by {
                    if is_digit(e) {
                        lemma_bit_masked(self.bits, e);
                        lemma_bit_masked(other.bits, e);
                    }
                }
                assert(self@ =~= other@);
            }
            if self@ == other@ {
                assert forall|e: u8| 1 <= e <= 9 implies (self.bits & (1u16 << e) != 0) == (
                other.bits & (1u16 << e) != 0) by {
                    assert(self@.contains(e) == other@.contains(e));
                }
                lemma_bits_agree(self.bits, other.bits);
            }
        }
        b
    }

    /// The number of members.
    pub fn len(&self) -> (n: usize)
        ensures
            n == self@.len(),
            n <= 9,
    {
        let mut n: usize = 0;
        let mut d: u8 = 1;
        proof {
            self.lemma_view();
            assert(digits_below(self@, 1) =~= Set::<u8>::empty());
        }
        while d <= 9
            invariant
                1 <= d <= 10,
                digits_below(self@, d).finite(),
                n == digits_below(self@, d).len(),
                n < d,
            decreases 10 - d,
        {
            proof {
                lemma_below_step(self@, d);
            }
            if self.contains(d) {
                n = n + 1;
            }
            d = d + 1;
        }
        proof {
            assert(digits_below(self@, 10) =~= self@);
        }
        n
    }

    /// Whether the set has no member.
    pub fn is_empty(&self) -> (b: bool)
        ensures
            b == (self@ == Set::<u8>::empty()),
    {
        let e = DigitSet::empty();
        self.equals(&e)
    }

    /// The other member of a set of two digits of which `d` is one.
    pub fn partner_of(&self, d: u8) -> (a: u8)
        requires
            self@.len() == 2,
            self@.contains(d),
        ensures
            is_digit(a),
            a != d,
            self@ == set![a, d],
    {
        let rest = self.without(d);
        let a = rest.lowest();
        proof {
            self.lemma_view();
            rest.lemma_view();
            if rest@ == Set::<u8>::empty() {
                assert(rest@.len() == 0);
            }
            lemma_pair_of(self@, a, d);
        }
        a
    }

    /// The smallest member, or 0 when the set is empty.
    pub fn lowest(&self) -> (d: u8)
        ensures
            self@ == Set::<u8>::empty() ==> d == 0,
            self@ != Set::<u8>::empty() ==> self@.contains(d),
            forall|e: u8| self@.contains(e) ==> d <= e,
    {
        let mut d: u8 = 1;
        proof {
            self.lemma_view();
        }
        while d <= 9
            invariant
                1 <= d <= 10,
                only_digits(self@),
                forall|e: u8| self@.contains(e) ==> d <= e,
            decreases 10 - d,
        {
            if self.contains(d) {
                return d;
            }
            d = d + 1;
        }
        proof {
            assert(self@ =~= Set::<u8>::empty());
        }
        0
    }
}

} // verus!
