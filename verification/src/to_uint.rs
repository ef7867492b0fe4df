//! Decimal digits and digit chains: the numeric substrate of the marker
//! encoding.
//!
//! A [`Digit`] stands for one decimal digit, a [`DigitChain`] for an unsigned
//! integer written as a sequence of digits, most significant first. The
//! composition rule is the usual positional one: appending a chain `b` to a
//! chain `a` multiplies the value of `a` by ten to the length of `b` and adds
//! the value of `b`; the empty chain encodes zero with digit count zero and is
//! the identity of that composition. Values of up to 38 digits are guaranteed
//! to fit the 128-bit extraction path, mirroring the size of the power-of-ten
//! table that bounds the encoding.

use vstd::prelude::*;

verus! {

/// One decimal digit, as a marker with no other content.
#[derive(Clone, Copy, PartialEq, Eq, Structural, Debug)]
pub enum Digit {
    D0,
    D1,
    D2,
    D3,
    D4,
    D5,
    D6,
    D7,
    D8,
    D9,
}

/// The numeric value of a digit marker.
pub open spec fn digit_val(d: Digit) -> nat {
    match d {
        Digit::D0 => 0,
        Digit::D1 => 1,
        Digit::D2 => 2,
        Digit::D3 => 3,
        Digit::D4 => 4,
        Digit::D5 => 5,
        Digit::D6 => 6,
        Digit::D7 => 7,
        Digit::D8 => 8,
        Digit::D9 => 9,
    }
}

/// The digit marker for a value below ten.
pub open spec fn digit_of(n: nat) -> Digit {
    if n == 0 {
        Digit::D0
    } else if n == 1 {
        Digit::D1
    } else if n == 2 {
        Digit::D2
    } else if n == 3 {
        Digit::D3
    } else if n == 4 {
        Digit::D4
    } else if n == 5 {
        Digit::D5
    } else if n == 6 {
        Digit::D6
    } else if n == 7 {
        Digit::D7
    } else if n == 8 {
        Digit::D8
    } else {
        Digit::D9
    }
}

/// No two digit markers share a value: `digit_of` inverts `digit_val`.
pub proof fn lemma_digit_markers_distinct(d: Digit)
    ensures
        digit_of(digit_val(d)) == d,
        digit_val(d) < 10,
{
}

impl Digit {
    /// The digit's numeric value at run time.
    pub fn value(&self) -> (r: u8)
        ensures
            r as nat == digit_val(*self),
            r < 10,
    {
        match self {
            Digit::D0 => 0,
            Digit::D1 => 1,
            Digit::D2 => 2,
            Digit::D3 => 3,
            Digit::D4 => 4,
            Digit::D5 => 5,
            Digit::D6 => 6,
            Digit::D7 => 7,
            Digit::D8 => 8,
            Digit::D9 => 9,
        }
    }

    /// The digit marker for a value below ten.
    pub fn from_u8(v: u8) -> (r: Digit)
        requires
            v < 10,
        ensures
            r == digit_of(v as nat),
    {
        if v == 0 {
            Digit::D0
        } else if v == 1 {
            Digit::D1
        } else if v == 2 {
            Digit::D2
        } else if v == 3 {
            Digit::D3
        } else if v == 4 {
            Digit::D4
        } else if v == 5 {
            Digit::D5
        } else if v == 6 {
            Digit::D6
        } else if v == 7 {
            Digit::D7
        } else if v == 8 {
            Digit::D8
        } else {
            Digit::D9
        }
    }
}

/// Ten to the `n`th power.
pub open spec fn pow10(n: nat) -> nat
    decreases n,
{
    if n == 0 {
        1
    } else {
        10 * pow10((n - 1) as nat)
    }
}

/// The value of a digit sequence read positionally, most significant digit
/// first: `value = value * 10 + digit`, left to right.
pub open spec fn chain_value(s: Seq<Digit>) -> nat
    decreases s.len(),
{
    if s.len() == 0 {
        0
    } else {
        chain_value(s.drop_last()) * 10 + digit_val(s.last())
    }
}

/// How many digits the decimal rendering of `n` has; zero is rendered as a
/// single digit.
pub open spec fn num_digits(n: nat) -> nat
    decreases n,
{
    if n < 10 {
        1
    } else {
        1 + num_digits(n / 10)
    }
}

/// The decimal rendering of `n`, most significant digit first, with no
/// leading zero except for the single-digit rendering of zero itself.
pub open spec fn digits_of(n: nat) -> Seq<Digit>
    decreases n,
{
    if n < 10 {
        seq![digit_of(n)]
    } else {
        digits_of(n / 10).push(digit_of(n % 10))
    }
}

/// A digit sequence in canonical form: non-empty, and without a leading zero
/// unless it is the single digit zero. Exactly the sequences `digits_of`
/// produces; the empty chain, which encodes zero with digit count zero, is
/// deliberately not canonical and stays distinct from the rendering of zero.
pub open spec fn canonical(s: Seq<Digit>) -> bool {
    s.len() >= 1 && (s.len() == 1 || s[0] != Digit::D0)
}

pub proof fn lemma_pow10_pos(n: nat)
    ensures
        pow10(n) >= 1,
    decreases n,
{
    if n > 0 {
        lemma_pow10_pos((n - 1) as nat);
    }
}

pub proof fn lemma_pow10_monotone(i: nat, j: nat)
    requires
        i <= j,
    ensures
        pow10(i) <= pow10(j),
    decreases j,
{
    if i < j {
        lemma_pow10_monotone(i, (j - 1) as nat);
        lemma_pow10_pos((j - 1) as nat);
    }
}

/// A chain of `n` digits encodes a value below ten to the `n`th.
pub proof fn lemma_chain_value_bound(s: Seq<Digit>)
    ensures
        chain_value(s) < pow10(s.len()),
    decreases s.len(),
{
    if s.len() > 0 {
        lemma_chain_value_bound(s.drop_last());
    }
}

/// The leading digit carries at least its face value times the weight of its
/// position.
pub proof fn lemma_leading_digit_bound(s: Seq<Digit>)
    requires
        s.len() >= 1,
    ensures
        chain_value(s) >= digit_val(s[0]) * pow10((s.len() - 1) as nat),
    decreases s.len(),
{
    if s.len() > 1 {
        lemma_leading_digit_bound(s.drop_last());
        let v0 = digit_val(s[0]);
        let p = pow10((s.len() - 2) as nat);
        assert(s.drop_last()[0] == s[0]);
        assert(chain_value(s.drop_last()) >= v0 * p);
        assert(chain_value(s) >= chain_value(s.drop_last()) * 10);
        assert(chain_value(s.drop_last()) * 10 >= (v0 * p) * 10);
        assert((v0 * p) * 10 == v0 * (p * 10)) by (nonlinear_arith);
        assert(pow10((s.len() - 1) as nat) == 10 * p);
        assert(v0 * (p * 10) == v0 * pow10((s.len() - 1) as nat));
    }
}

/// Decoding the decimal rendering of `n` gives back exactly `n`, with one
/// digit per decimal place and no leading zero.
pub proof fn lemma_digits_of(n: nat)
    ensures
        chain_value(digits_of(n)) == n,
        digits_of(n).len() == num_digits(n),
        canonical(digits_of(n)),
        n >= 1 ==> digits_of(n)[0] != Digit::D0,
    decreases n,
{
    if n < 10 {
        assert(seq![digit_of(n)].drop_last() =~= Seq::<Digit>::empty());
        assert(chain_value(Seq::<Digit>::empty()) == 0);
        assert(digit_val(digit_of(n)) == n);
    } else {
        lemma_digits_of(n / 10);
        let s = digits_of(n / 10);
        let d = digit_of(n % 10);
        assert(s.push(d).drop_last() =~= s);
        assert(chain_value(s.push(d)) == chain_value(s) * 10 + digit_val(d));
        assert(digit_val(d) == n % 10);
        assert(n == (n / 10) * 10 + n % 10);
    }
}

/// Zero has two chain encodings with different digit counts: the empty chain,
/// with digit count zero, and the canonical single-digit rendering. They share
/// the value and are nonetheless distinct chains.
pub proof fn lemma_zero_encodings_distinct()
    ensures
        chain_value(Seq::<Digit>::empty()) == 0,
        digits_of(0) == seq![Digit::D0],
        digits_of(0) != Seq::<Digit>::empty(),
        digits_of(0).len() == 1,
{
    assert(digits_of(0) =~= seq![Digit::D0]);
}

/// Positional composition: concatenating two chains multiplies the left
/// value by the weight of the right chain's length and adds the right value.
/// With an empty chain on either side this degenerates to the identity, so
/// the empty chain is the unit of composition.
pub proof fn lemma_chain_concat(a: Seq<Digit>, b: Seq<Digit>)
    ensures
        chain_value(a + b) == chain_value(a) * pow10(b.len()) + chain_value(b),
    decreases b.len(),
{
    if b.len() == 0 {
        assert(a + b =~= a);
        assert(pow10(b.len()) == 1);
        assert(chain_value(b) == 0);
        assert(chain_value(a) * 1 == chain_value(a));
    } else {
        lemma_chain_concat(a, b.drop_last());
        assert((a + b).drop_last() =~= a + b.drop_last());
        assert((a + b).last() == b.last());
        let va = chain_value(a);
        let p = pow10((b.len() - 1) as nat);
        let d = digit_val(b.last());
        assert((va * p) * 10 == va * (p * 10)) by (nonlinear_arith);
        assert(pow10(b.len()) == p * 10);
        assert(chain_value(b) == chain_value(b.drop_last()) * 10 + d);
        assert(chain_value(a + b) == chain_value(a + b.drop_last()) * 10 + d);
        assert(chain_value(a + b) == (va * p + chain_value(b.drop_last())) * 10 + d);
        let x = chain_value(b.drop_last());
        assert((va * p + x) * 10 == (va * p) * 10 + x * 10) by (nonlinear_arith);
    }
}

/// A prefix of a chain never encodes more than the whole chain.
pub proof fn lemma_chain_prefix_bound(s: Seq<Digit>, i: int)
    requires
        0 <= i <= s.len(),
    ensures
        chain_value(s.subrange(0, i)) <= chain_value(s),
{
    let a = s.subrange(0, i);
    let b = s.subrange(i, s.len() as int);
    assert(a + b =~= s);
    lemma_chain_concat(a, b);
    lemma_pow10_pos(b.len());
    let va = chain_value(a);
    let p = pow10(b.len());
    assert(va * p >= va) by (nonlinear_arith)
        requires
            p >= 1,
            va >= 0,
    ;
}

/// A canonical chain is the decimal rendering of its own value: the decimal
/// rendering is unique among canonical chains.
pub proof fn lemma_canonical_digits(s: Seq<Digit>)
    requires
        canonical(s),
    ensures
        digits_of(chain_value(s)) == s,
    decreases s.len(),
{
    if s.len() == 1 {
        lemma_digit_markers_distinct(s[0]);
        assert(s.drop_last() =~= Seq::<Digit>::empty());
        assert(seq![s[0]] =~= s);
    } else {
        let dl = s.drop_last();
        let d = s.last();
        lemma_canonical_digits(dl);
        lemma_leading_digit_bound(dl);
        lemma_pow10_pos((dl.len() - 1) as nat);
        let v = chain_value(s);
        assert(digit_val(s[0]) >= 1);
        let vd = chain_value(dl);
        let p = pow10((dl.len() - 1) as nat);
        assert(vd >= digit_val(s[0]) * p >= 1) by (nonlinear_arith)
            requires
                vd >= digit_val(s[0]) * p,
                digit_val(s[0]) >= 1,
                p >= 1,
        ;
        assert(v >= 10);
        lemma_digit_markers_distinct(d);
        vstd::arithmetic::div_mod::lemma_fundamental_div_mod_converse(
            v as int,
            10,
            vd as int,
            digit_val(d) as int,
        );
        assert(v / 10 == vd && v % 10 == digit_val(d));
        assert(dl.push(d) =~= s);
    }
}

/// The bound behind the 38-digit limit: ten to the 38th — the largest entry
/// of the classic power-of-ten table — still fits a 128-bit unsigned value.
pub proof fn lemma_pow10_38_fits()
    ensures
        pow10(38) == 100000000000000000000000000000000000000,
        pow10(38) <= u128::MAX,
{
    reveal_with_fuel(pow10, 39);
}

/// Ten to the given power, as a 128-bit value. Powers up to 38 are the
/// supported range — the size of the classic power-of-ten table; larger
/// powers do not fit 128 bits and are not accepted.
pub fn ten_pow(power: usize) -> (r: u128)
    requires
        power <= 38,
    ensures
        r as nat == pow10(power as nat),
{
    let mut acc: u128 = 1;
    let mut i: usize = 0;
    while i < power
        invariant
            i <= power <= 38,
            acc as nat == pow10(i as nat),
        decreases power - i,
    {
        proof {
            lemma_pow10_monotone((i + 1) as nat, 38);
            lemma_pow10_38_fits();
            assert(pow10((i + 1) as nat) == 10 * pow10(i as nat));
        }
        acc = acc * 10;
        i = i + 1;
    }
    acc
}

/// An unsigned integer written as a chain of decimal digit markers, most
/// significant first. The empty chain encodes zero with digit count zero.
#[derive(Clone, Debug)]
pub struct DigitChain {
    digits: Vec<Digit>,
}

impl View for DigitChain {
    type V = Seq<Digit>;

    closed spec fn view(&self) -> Seq<Digit> {
        self.digits@
    }
}

impl DigitChain {
    /// The empty chain: zero, with digit count zero.
    pub fn new() -> (r: DigitChain)
        ensures
            r@ == Seq::<Digit>::empty(),
            chain_value(r@) == 0,
            r@.len() == 0,
    {
        DigitChain { digits: Vec::new() }
    }

    /// The number of digits in the chain.
    pub fn digit_count(&self) -> (r: usize)
        ensures
            r == self@.len(),
    {
        self.digits.len()
    }

    /// The digit at the given position, most significant position first.
    pub fn digit_at(&self, i: usize) -> (r: Digit)
        requires
            i < self@.len(),
        ensures
            r == self@[i as int],
    {
        self.digits[i]
    }

    /// Appends one digit at the least significant end: the encoded value
    /// becomes ten times the old value plus the digit.
    pub fn push_digit(&mut self, d: Digit)
        ensures
            final(self)@ == old(self)@.push(d),
            chain_value(final(self)@) == chain_value(old(self)@) * 10 + digit_val(d),
    {
        self.digits.push(d);
        proof {
            assert(self@.drop_last() =~= old(self)@);
        }
    }

    /// Renders an unsigned integer as its chain of decimal digits, most
    /// significant first, without a leading zero; zero becomes the single
    /// digit zero, not the empty chain.
    pub fn from_u128(n: u128) -> (r: DigitChain)
        ensures
            r@ == digits_of(n as nat),
            chain_value(r@) == n as nat,
            r@.len() == num_digits(n as nat),
            canonical(r@),
    {
        let mut digits: Vec<Digit> = Vec::new();
        let d0 = Digit::from_u8((n % 10) as u8);
        digits.insert(0, d0);
        let mut m: u128 = n / 10;
        proof {
            assert(digits@ =~= seq![d0]);
            assert(digit_val(d0) == n as nat % 10);
            if n < 10 {
                assert(digits@ =~= digits_of(n as nat));
            } else {
                assert(digits_of(n as nat) =~= digits_of(m as nat) + digits@);
            }
        }
        while m > 0
            invariant
                m > 0 ==> digits_of(n as nat) == digits_of(m as nat) + digits@,
                m == 0 ==> digits@ == digits_of(n as nat),
            decreases m,
        {
            let d = Digit::from_u8((m % 10) as u8);
            digits.insert(0, d);
            let ghost prev = m as nat;
            let ghost before = digits@.drop_first();
            m = m / 10;
            proof {
                assert(digits@ =~= seq![d] + before);
                assert(digit_val(d) == prev % 10);
                if prev < 10 {
                    assert(digits_of(prev) =~= seq![d]);
                    assert(digits_of(n as nat) =~= digits@);
                } else {
                    assert(digits_of(prev) =~= digits_of(prev / 10) + seq![d]);
                    assert(digits_of(prev) + before =~= digits_of(prev / 10) + digits@);
                }
            }
        }
        proof {
            lemma_digits_of(n as nat);
        }
        DigitChain { digits }
    }

    /// The chain's value as a 128-bit unsigned integer. Chains of up to 38
    /// digits are within the supported range; longer ones are not accepted
    /// here, matching the bound of [`lemma_pow10_38_fits`].
    pub fn as_u128(&self) -> (r: u128)
        requires
            self@.len() <= 38,
        ensures
            r as nat == chain_value(self@),
    {
        let mut acc: u128 = 0;
        let mut i: usize = 0;
        while i < self.digits.len()
            invariant
                i <= self@.len() <= 38,
                acc as nat == chain_value(self@.subrange(0, i as int)),
            decreases self@.len() - i,
        {
            let d = self.digits[i].value();
            proof {
                lemma_chain_value_bound(self@.subrange(0, i as int));
                lemma_pow10_monotone((i + 1) as nat, 38);
                lemma_pow10_38_fits();
                assert(self@.subrange(0, i + 1).drop_last() =~= self@.subrange(0, i as int));
                assert(self@.subrange(0, i + 1).last() == self@[i as int]);
            }
            acc = acc * 10 + (d as u128);
            i = i + 1;
        }
        proof {
            assert(self@.subrange(0, self@.len() as int) =~= self@);
        }
        acc
    }

    /// The chain's value as a 128-bit unsigned integer, with the range
    /// checked instead of assumed: the value comes back exactly when it fits,
    /// and a chain whose value is too large is reported rather than accepted.
    pub fn as_u128_checked(&self) -> (r: Option<u128>)
        ensures
            match r {
                Some(v) => v as nat == chain_value(self@),
                None => chain_value(self@) > u128::MAX,
            },
    {
        let mut acc: u128 = 0;
        let mut i: usize = 0;
        while i < self.digits.len()
            invariant
                i <= self@.len(),
                acc as nat == chain_value(self@.subrange(0, i as int)),
            decreases self@.len() - i,
        {
            let d = self.digits[i].value();
            proof {
                assert(self@.subrange(0, i + 1).drop_last() =~= self@.subrange(0, i as int));
                assert(self@.subrange(0, i + 1).last() == self@[i as int]);
                lemma_chain_prefix_bound(self@, i + 1);
            }
            let next = match acc.checked_mul(10) {
                Some(t) => t.checked_add(d as u128),
                None => None,
            };
            match next {
                Some(v) => {
                    acc = v;
                },
                None => {
                    return None;
                },
            }
            i = i + 1;
        }
        proof {
            assert(self@.subrange(0, self@.len() as int) =~= self@);
        }
        Some(acc)
    }

    /// The chain's value as a pointer-sized unsigned integer; the value must
    /// fit, the digit count itself is not limited.
    pub fn as_usize(&self) -> (r: usize)
        requires
            chain_value(self@) <= usize::MAX,
        ensures
            r as nat == chain_value(self@),
    {
        let mut acc: u128 = 0;
        let mut i: usize = 0;
        while i < self.digits.len()
            invariant
                i <= self@.len(),
                acc as nat == chain_value(self@.subrange(0, i as int)),
                chain_value(self@) <= usize::MAX,
            decreases self@.len() - i,
        {
            let d = self.digits[i].value();
            proof {
                assert(self@.subrange(0, i + 1).drop_last() =~= self@.subrange(0, i as int));
                assert(self@.subrange(0, i + 1).last() == self@[i as int]);
                lemma_chain_prefix_bound(self@, i + 1);
            }
            acc = acc * 10 + (d as u128);
            i = i + 1;
        }
        proof {
            assert(self@.subrange(0, self@.len() as int) =~= self@);
        }
        acc as usize
    }

    /// Appends a whole chain at the least significant end, following the
    /// positional composition rule of [`lemma_chain_concat`].
    pub fn append(&mut self, other: &DigitChain)
        ensures
            final(self)@ == old(self)@ + other@,
            final(self)@.len() == old(self)@.len() + other@.len(),
            chain_value(final(self)@) == chain_value(old(self)@) * pow10(other@.len())
                + chain_value(other@),
    {
        let mut i: usize = 0;
        while i < other.digits.len()
            invariant
                0 <= i <= other.digits.len(),
                self@ == old(self)@ + other@.subrange(0, i as int),
            decreases other.digits.len() - i,
        {
            self.digits.push(other.digits[i]);
            proof {
                assert(old(self)@ + other@.subrange(0, i + 1) =~= (old(self)@ + other@.subrange(
                    0,
                    i as int,
                )).push(other@[i as int]));
            }
            i = i + 1;
        }
        proof {
            assert(other@.subrange(0, other@.len() as int) =~= other@);
            lemma_chain_concat(old(self)@, other@);
        }
    }
}

} // verus!
