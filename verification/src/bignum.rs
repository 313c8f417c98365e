//! Arbitrary-precision signed integers: the sole value type of the operand
//! stack. A value is a sign and a sequence of base-2^32 limbs, least
//! significant first; the arithmetic itself is done by num_bigint behind
//! small trusted wrappers whose contracts speak of the mathematical value.

use vstd::prelude::*;

verus! {

/// The base of the limb representation.
pub open spec fn limb_base() -> nat {
    0x1_0000_0000
}

/// Mathematical value of a limb sequence, least significant limb first.
pub open spec fn limbs_value(s: Seq<u32>) -> nat
    decreases s.len(),
{
    if s.len() == 0 {
        0
    } else {
        (s[0] + limb_base() * limbs_value(s.subrange(1, s.len() as int))) as nat
    }
}

/// An arbitrary-precision signed integer. The mathematical value is
/// `limbs_value(limbs)`, negated when `neg` is set.
#[derive(Debug, PartialEq, Eq)]
pub struct Big {
    pub neg: bool,
    pub limbs: Vec<u32>,
}

impl View for Big {
    type V = int;

    open spec fn view(&self) -> int {
        if self.neg {
            -(limbs_value(self.limbs@) as int)
        } else {
            limbs_value(self.limbs@) as int
        }
    }
}

impl Big {
    /// Canonical form: no leading zero limb, and zero is never negative.
    pub open spec fn wf(&self) -> bool {
        &&& (self.limbs@.len() > 0 ==> self.limbs@.last() != 0)
        &&& (self.neg ==> self.limbs@.len() > 0)
    }
}

/// A canonical nonempty limb sequence has a nonzero value.
pub proof fn lemma_limbs_value_pos(s: Seq<u32>)
    requires
        s.len() > 0,
        s.last() != 0,
    ensures
        limbs_value(s) >= 1,
    decreases s.len(),
{
    if s.len() == 1 {
        assert(s[0] == s.last());
    } else {
        let rest = s.subrange(1, s.len() as int);
        assert(rest.last() == s.last());
        lemma_limbs_value_pos(rest);
    }
}

/// With two or more canonical limbs the value reaches the base.
pub proof fn lemma_limbs_value_big(s: Seq<u32>)
    requires
        s.len() >= 2,
        s.last() != 0,
    ensures
        limbs_value(s) >= limb_base(),
{
    let rest = s.subrange(1, s.len() as int);
    assert(rest.last() == s.last());
    lemma_limbs_value_pos(rest);
}

/// With three or more canonical limbs the value reaches the base squared.
pub proof fn lemma_limbs_value_huge(s: Seq<u32>)
    requires
        s.len() >= 3,
        s.last() != 0,
    ensures
        limbs_value(s) >= limb_base() * limb_base(),
{
    let rest = s.subrange(1, s.len() as int);
    assert(rest.last() == s.last());
    lemma_limbs_value_big(rest);
}

/// A well-formed value is zero exactly when it has no limbs.
pub proof fn lemma_zero_iff_empty(b: &Big)
    requires
        b.wf(),
    ensures
        b@ == 0 <==> b.limbs@.len() == 0,
        b.neg ==> b@ < 0,
        !b.neg ==> b@ >= 0,
{
    if b.limbs@.len() > 0 {
        lemma_limbs_value_pos(b.limbs@);
    }
}

/// Truncated division, the semantics of the `div` word: the magnitude is the
/// floor quotient of the magnitudes and the sign follows the signs' product.
pub open spec fn trunc_div(a: int, b: int) -> int
    recommends
        b != 0,
{
    if (a < 0) == (b < 0) {
        abs_nat(a) as int / abs_nat(b) as int
    } else {
        -(abs_nat(a) as int / abs_nat(b) as int)
    }
}

/// Truncated remainder, the semantics of the `%` word: the magnitude is the
/// remainder of the magnitudes and the sign follows the dividend.
pub open spec fn trunc_rem(a: int, b: int) -> int
    recommends
        b != 0,
{
    if a >= 0 {
        abs_nat(a) as int % abs_nat(b) as int
    } else {
        -(abs_nat(a) as int % abs_nat(b) as int)
    }
}

pub open spec fn abs_nat(a: int) -> nat {
    if a >= 0 {
        a as nat
    } else {
        (-a) as nat
    }
}

/// Decimal digit characters of a nonnegative number, most significant first.
pub open spec fn dec_digits_chars(n: nat) -> Seq<char>
    decreases n,
{
    if n < 10 {
        seq![dec_digit_char(n)]
    } else {
        dec_digits_chars(n / 10).push(dec_digit_char(n % 10))
    }
}

pub open spec fn dec_digit_char(d: nat) -> char
    recommends
        d < 10,
{
    ((48 + d) as u8) as char
}

/// Decimal rendering of an integer: a minus sign, then the digits of the
/// magnitude without leading zeros (a single `0` for zero).
pub open spec fn dec_chars(v: int) -> Seq<char> {
    if v < 0 {
        seq!['-'] + dec_digits_chars(abs_nat(v))
    } else {
        dec_digits_chars(v as nat)
    }
}

/// Value of a big-endian byte string: the encoding of quoted string literals.
pub open spec fn be_value(b: Seq<u8>) -> nat
    decreases b.len(),
{
    if b.len() == 0 {
        0
    } else {
        (be_value(b.drop_last()) * 256 + b.last()) as nat
    }
}

/// Minimal big-endian bytes of a nonnegative number: empty for zero.
pub open spec fn be_bytes(n: nat) -> Seq<u8>
    decreases n,
{
    if n == 0 {
        Seq::<u8>::empty()
    } else {
        be_bytes(n / 256).push((n % 256) as u8)
    }
}

/// Relies on num_bigint: BigInt addition, with from_slice/to_u32_digits
/// converting between limb vectors and BigInt at the boundary.
#[verifier::external_body]
pub(crate) fn big_add(a: &Big, b: &Big) -> (r: Big)
    ensures
        r.wf(),
        r@ == a@ + b@,
{
    let sa = if a.neg { num_bigint::Sign::Minus } else { num_bigint::Sign::Plus };
    let sb = if b.neg { num_bigint::Sign::Minus } else { num_bigint::Sign::Plus };
    let x = num_bigint::BigInt::from_slice(sa, a.limbs.as_slice());
    let y = num_bigint::BigInt::from_slice(sb, b.limbs.as_slice());
    let (s, limbs) = (x + y).to_u32_digits();
    Big { neg: s == num_bigint::Sign::Minus, limbs }
}

/// Relies on num_bigint: BigInt subtraction, converted as in `big_add`.
#[verifier::external_body]
pub(crate) fn big_sub(a: &Big, b: &Big) -> (r: Big)
    ensures
        r.wf(),
        r@ == a@ - b@,
{
    let sa = if a.neg { num_bigint::Sign::Minus } else { num_bigint::Sign::Plus };
    let sb = if b.neg { num_bigint::Sign::Minus } else { num_bigint::Sign::Plus };
    let x = num_bigint::BigInt::from_slice(sa, a.limbs.as_slice());
    let y = num_bigint::BigInt::from_slice(sb, b.limbs.as_slice());
    let (s, limbs) = (x - y).to_u32_digits();
    Big { neg: s == num_bigint::Sign::Minus, limbs }
}

/// Relies on num_bigint: BigInt multiplication, converted as in `big_add`.
#[verifier::external_body]
pub(crate) fn big_mul(a: &Big, b: &Big) -> (r: Big)
    ensures
        r.wf(),
        r@ == a@ * b@,
{
    let sa = if a.neg { num_bigint::Sign::Minus } else { num_bigint::Sign::Plus };
    let sb = if b.neg { num_bigint::Sign::Minus } else { num_bigint::Sign::Plus };
    let x = num_bigint::BigInt::from_slice(sa, a.limbs.as_slice());
    let y = num_bigint::BigInt::from_slice(sb, b.limbs.as_slice());
    let (s, limbs) = (x * y).to_u32_digits();
    Big { neg: s == num_bigint::Sign::Minus, limbs }
}

/// Relies on num_bigint: BigInt division truncates toward zero (the quotient
/// of the magnitudes, the product of the signs) and panics on a zero divisor,
/// which the precondition rules out.
#[verifier::external_body]
pub(crate) fn big_div(a: &Big, b: &Big) -> (r: Big)
    requires
        b@ != 0,
    ensures
        r.wf(),
        r@ == trunc_div(a@, b@),
{
    let sa = if a.neg { num_bigint::Sign::Minus } else { num_bigint::Sign::Plus };
    let sb = if b.neg { num_bigint::Sign::Minus } else { num_bigint::Sign::Plus };
    let x = num_bigint::BigInt::from_slice(sa, a.limbs.as_slice());
    let y = num_bigint::BigInt::from_slice(sb, b.limbs.as_slice());
    let (s, limbs) = (x / y).to_u32_digits();
    Big { neg: s == num_bigint::Sign::Minus, limbs }
}

/// Relies on num_bigint: the BigInt remainder has the magnitude of the
/// magnitudes' remainder and the dividend's sign, and panics on a zero
/// divisor, which the precondition rules out.
#[verifier::external_body]
pub(crate) fn big_rem(a: &Big, b: &Big) -> (r: Big)
    requires
        b@ != 0,
    ensures
        r.wf(),
        r@ == trunc_rem(a@, b@),
{
    let sa = if a.neg { num_bigint::Sign::Minus } else { num_bigint::Sign::Plus };
    let sb = if b.neg { num_bigint::Sign::Minus } else { num_bigint::Sign::Plus };
    let x = num_bigint::BigInt::from_slice(sa, a.limbs.as_slice());
    let y = num_bigint::BigInt::from_slice(sb, b.limbs.as_slice());
    let (s, limbs) = (x % y).to_u32_digits();
    Big { neg: s == num_bigint::Sign::Minus, limbs }
}

/// Relies on num_bigint: BigInt's order is the order of the values.
#[verifier::external_body]
pub(crate) fn big_lt(a: &Big, b: &Big) -> (r: bool)
    ensures
        r == (a@ < b@),
{
    let sa = if a.neg { num_bigint::Sign::Minus } else { num_bigint::Sign::Plus };
    let sb = if b.neg { num_bigint::Sign::Minus } else { num_bigint::Sign::Plus };
    let x = num_bigint::BigInt::from_slice(sa, a.limbs.as_slice());
    let y = num_bigint::BigInt::from_slice(sb, b.limbs.as_slice());
    x < y
}

/// Relies on num_bigint: BigInt equality is equality of the values.
#[verifier::external_body]
pub(crate) fn big_eq(a: &Big, b: &Big) -> (r: bool)
    ensures
        r == (a@ == b@),
{
    let sa = if a.neg { num_bigint::Sign::Minus } else { num_bigint::Sign::Plus };
    let sb = if b.neg { num_bigint::Sign::Minus } else { num_bigint::Sign::Plus };
    let x = num_bigint::BigInt::from_slice(sa, a.limbs.as_slice());
    let y = num_bigint::BigInt::from_slice(sb, b.limbs.as_slice());
    x == y
}

/// Relies on num_bigint: to_bytes_be returns the magnitude's minimal
/// big-endian bytes; the zero case is kept out by the precondition.
#[verifier::external_body]
pub(crate) fn big_to_bytes_be(a: &Big) -> (r: Vec<u8>)
    requires
        a@ != 0,
    ensures
        r@ == be_bytes(abs_nat(a@)),
{
    let s = if a.neg { num_bigint::Sign::Minus } else { num_bigint::Sign::Plus };
    let x = num_bigint::BigInt::from_slice(s, a.limbs.as_slice());
    x.to_bytes_be().1
}

/// Relies on num_bigint: to_str_radix(10) renders the minimal decimal
/// digits of the magnitude after a minus sign for negative values.
#[verifier::external_body]
pub(crate) fn big_to_dec_string(a: &Big) -> (r: String)
    ensures
        r@ == dec_chars(a@),
{
    let s = if a.neg { num_bigint::Sign::Minus } else { num_bigint::Sign::Plus };
    let x = num_bigint::BigInt::from_slice(s, a.limbs.as_slice());
    x.to_str_radix(10)
}

impl Big {
    /// The zero value.
    pub fn zero() -> (r: Big)
        ensures
            r.wf(),
            r@ == 0,
    {
        Big { neg: false, limbs: Vec::new() }
    }

    /// A small nonnegative constant.
    pub fn from_u32(n: u32) -> (r: Big)
        ensures
            r.wf(),
            r@ == n as int,
    {
        if n == 0 {
            Big { neg: false, limbs: Vec::new() }
        } else {
            let mut limbs: Vec<u32> = Vec::new();
            limbs.push(n);
            proof {
                assert(limbs@.subrange(1, 1) =~= Seq::<u32>::empty());
                assert(limbs_value(Seq::<u32>::empty()) == 0);
                assert(limbs_value(limbs@) == n);
            }
            Big { neg: false, limbs }
        }
    }

    pub fn is_zero(&self) -> (r: bool)
        requires
            self.wf(),
        ensures
            r == (self@ == 0),
    {
        proof {
            lemma_zero_iff_empty(self);
        }
        self.limbs.len() == 0
    }

    /// An equal, independently owned value.
    pub fn duplicate(&self) -> (r: Big)
        ensures
            r@ == self@,
            r.wf() == self.wf(),
    {
        let mut limbs: Vec<u32> = Vec::new();
        let mut i: usize = 0;
        while i < self.limbs.len()
            invariant
                i <= self.limbs.len(),
                limbs@ == self.limbs@.subrange(0, i as int),
            decreases self.limbs.len() - i,
        {
            limbs.push(self.limbs[i]);
            proof {
                assert(limbs@ =~= self.limbs@.subrange(0, i + 1 as int));
            }
            i = i + 1;
        }
        proof {
            assert(limbs@ =~= self.limbs@);
        }
        Big { neg: self.neg, limbs }
    }

    /// The value with the opposite sign.
    pub fn negated(self) -> (r: Big)
        requires
            self.wf(),
        ensures
            r.wf(),
            r@ == -self@,
    {
        proof {
            lemma_zero_iff_empty(&self);
        }
        if self.limbs.len() == 0 {
            self
        } else {
            let flipped = !self.neg;
            Big { neg: flipped, limbs: self.limbs }
        }
    }

    /// The minimal big-endian bytes of the magnitude; empty for zero.
    pub fn magnitude_bytes_be(&self) -> (r: Vec<u8>)
        requires
            self.wf(),
        ensures
            r@ == be_bytes(abs_nat(self@)),
    {
        proof {
            lemma_zero_iff_empty(self);
        }
        if self.limbs.len() == 0 {
            Vec::new()
        } else {
            big_to_bytes_be(self)
        }
    }

    /// The value of a big-endian byte string, the runtime form of a quoted
    /// string literal and of a read input line.
    pub fn from_bytes_be(bytes: &[u8]) -> (r: Big)
        ensures
            r.wf(),
            r@ == be_value(bytes@),
    {
        let base = Big::from_u32(256);
        let mut acc = Big::zero();
        let mut i: usize = 0;
        proof {
            assert(bytes@.subrange(0, 0) =~= Seq::<u8>::empty());
        }
        while i < bytes.len()
            invariant
                i <= bytes.len(),
                acc.wf(),
                base.wf(),
                base@ == 256,
                acc@ == be_value(bytes@.subrange(0, i as int)),
            decreases bytes.len() - i,
        {
            let d = Big::from_u32(bytes[i] as u32);
            acc = big_add(&big_mul(&acc, &base), &d);
            proof {
                let pre = bytes@.subrange(0, i as int);
                let post = bytes@.subrange(0, i + 1 as int);
                assert(post.drop_last() =~= pre);
                assert(post.last() == bytes@[i as int]);
            }
            i = i + 1;
        }
        proof {
            assert(bytes@.subrange(0, bytes@.len() as int) =~= bytes@);
        }
        acc
    }
}

/// A decimal digit byte.
pub open spec fn is_dec_digit(b: u8) -> bool {
    48 <= b <= 57
}

/// Whether a leading minus sign is taken as the sign of the literal: it must
/// not be followed by a plus sign.
pub open spec fn dec_neg(w: Seq<u8>) -> bool {
    w.len() >= 1 && w[0] == 45 && !(w.len() >= 2 && w[1] == 43)
}

/// One leading plus sign is ignored unless another plus sign follows it.
pub open spec fn strip_plus(r: Seq<u8>) -> Seq<u8> {
    if r.len() >= 1 && r[0] == 43 && !(r.len() >= 2 && r[1] == 43) {
        r.subrange(1, r.len() as int)
    } else {
        r
    }
}

/// The digit part of a would-be decimal literal, after the sign bytes.
pub open spec fn dec_body(w: Seq<u8>) -> Seq<u8> {
    if dec_neg(w) {
        strip_plus(w.subrange(1, w.len() as int))
    } else {
        strip_plus(w)
    }
}

/// Whether a word is a signed decimal integer literal: an optional sign, then
/// at least one digit; underscores are allowed, and skipped, after the first
/// digit.
pub open spec fn is_dec_literal(w: Seq<u8>) -> bool {
    let b = dec_body(w);
    &&& b.len() > 0
    &&& b[0] != 95
    &&& forall|i: int| 0 <= i < b.len() ==> (is_dec_digit(#[trigger] b[i]) || b[i] == 95)
}

/// Value of a run of digit bytes, underscores skipped.
pub open spec fn dec_digits_value(s: Seq<u8>) -> nat
    decreases s.len(),
{
    if s.len() == 0 {
        0
    } else if s.last() == 95 {
        dec_digits_value(s.drop_last())
    } else {
        (dec_digits_value(s.drop_last()) * 10 + (s.last() - 48)) as nat
    }
}

/// Value of a decimal integer literal.
pub open spec fn dec_literal_value(w: Seq<u8>) -> int {
    if dec_neg(w) {
        -(dec_digits_value(dec_body(w)) as int)
    } else {
        dec_digits_value(dec_body(w)) as int
    }
}

impl Big {
    /// Parses a word as a signed decimal integer literal, accepting exactly
    /// the words that `is_dec_literal` admits.
    pub fn parse_dec(w: &[u8]) -> (r: Option<Big>)
        ensures
            r is Some <==> is_dec_literal(w@),
            r is Some ==> r->Some_0.wf() && r->Some_0@ == dec_literal_value(w@),
    {
        let n = w.len();
        let mut start: usize = 0;
        let mut neg = false;
        if n >= 1 && w[0] == 45 && !(n >= 2 && w[1] == 43) {
            neg = true;
            start = 1;
        }
        proof {
            assert(neg == dec_neg(w@));
            if neg {
                assert(w@.subrange(1, n as int) =~= w@.subrange(start as int, n as int));
            }
        }
        let ghost signless = if neg {
            w@.subrange(1, n as int)
        } else {
            w@
        };
        if n - start >= 1 && w[start] == 43 && !(n - start >= 2 && w[start + 1] == 43) {
            proof {
                assert(signless[0] == 43);
                assert(n - start >= 2 ==> signless[1] == w@[start + 1]);
                assert(signless.subrange(1, signless.len() as int) =~= w@.subrange(
                    start + 1 as int,
                    n as int,
                ));
            }
            start = start + 1;
        } else {
            proof {
                if signless.len() >= 1 && signless[0] == 43 {
                    assert(signless.len() >= 2 && signless[1] == 43);
                }
            }
        }
        proof {
            assert(dec_body(w@) =~= w@.subrange(start as int, n as int));
        }
        if start >= n {
            return None;
        }
        if w[start] == 95 {
            return None;
        }
        let ten = Big::from_u32(10);
        let mut acc = Big::zero();
        let mut i: usize = start;
        proof {
            assert(w@.subrange(start as int, start as int) =~= Seq::<u8>::empty());
        }
        while i < n
            invariant
                start <= i <= n,
                n == w@.len(),
                acc.wf(),
                ten.wf(),
                ten@ == 10,
                dec_body(w@) == w@.subrange(start as int, n as int),
                w@[start as int] != 95,
                acc@ == dec_digits_value(w@.subrange(start as int, i as int)),
                forall|j: int|
                    start <= j < i ==> (is_dec_digit(#[trigger] w@[j]) || w@[j] == 95),
            decreases n - i,
        {
            let b = w[i];
            proof {
                let pre = w@.subrange(start as int, i as int);
                let post = w@.subrange(start as int, i + 1 as int);
                assert(post.drop_last() =~= pre);
                assert(post.last() == w@[i as int]);
            }
            if b == 95 {
                // an underscore after the first digit is skipped
            } else if 48 <= b && b <= 57 {
                let d = Big::from_u32((b - 48) as u32);
                acc = big_add(&big_mul(&acc, &ten), &d);
            } else {
                proof {
                    let body = dec_body(w@);
                    assert(body[i - start] == w@[i as int]);
                    assert(!is_dec_literal(w@));
                }
                return None;
            }
            i = i + 1;
        }
        proof {
            assert(dec_body(w@) =~= w@.subrange(start as int, n as int));
            assert(is_dec_literal(w@));
        }
        if neg {
            Some(acc.negated())
        } else {
            Some(acc)
        }
    }
}

/// Clamping of a popped value to an option index: negative values resolve to
/// the first option, values past the end to the last.
pub open spec fn clamped(v: int, n: int) -> int
    recommends
        n >= 1,
{
    if v < 0 {
        0
    } else if v >= n {
        n - 1
    } else {
        v
    }
}

impl Big {
    /// The branch option index this value selects among `n` options.
    pub fn clamp_index(&self, n: usize) -> (r: usize)
        requires
            self.wf(),
            n >= 1,
        ensures
            r == clamped(self@, n as int),
    {
        proof {
            lemma_zero_iff_empty(self);
        }
        if self.neg {
            0
        } else if self.limbs.len() == 0 {
            0
        } else if self.limbs.len() >= 3 {
            proof {
                lemma_limbs_value_huge(self.limbs@);
            }
            n - 1
        } else {
            let lo = self.limbs[0];
            let w: u64 = if self.limbs.len() == 2 {
                proof {
                    let rest = self.limbs@.subrange(1, 2);
                    assert(rest.subrange(1, 1) =~= Seq::<u32>::empty());
                    assert(limbs_value(Seq::<u32>::empty()) == 0);
                    assert(limbs_value(rest) == self.limbs@[1]);
                    assert(limbs_value(self.limbs@) == self.limbs@[0] + limb_base()
                        * limbs_value(rest));
                }
                (lo as u64) + (self.limbs[1] as u64) * 0x1_0000_0000u64
            } else {
                proof {
                    let rest = self.limbs@.subrange(1, 1);
                    assert(rest =~= Seq::<u32>::empty());
                    assert(limbs_value(Seq::<u32>::empty()) == 0);
                    assert(limbs_value(self.limbs@) == self.limbs@[0]);
                }
                lo as u64
            };
            proof {
                assert(w == self@);
            }
            if w >= n as u64 {
                n - 1
            } else {
                w as usize
            }
        }
    }

    /// The value as an index, if it is one: nonnegative and within range.
    pub fn to_usize(&self) -> (r: Option<usize>)
        requires
            self.wf(),
        ensures
            r is Some <==> 0 <= self@ <= usize::MAX,
            r is Some ==> r->Some_0 == self@,
    {
        proof {
            lemma_zero_iff_empty(self);
            if self.limbs@.len() >= 3 {
                lemma_limbs_value_huge(self.limbs@);
            }
        }
        if self.neg {
            None
        } else if self.limbs.len() == 0 {
            Some(0)
        } else if self.limbs.len() >= 3 {
            None
        } else {
            let lo = self.limbs[0];
            let w: u64 = if self.limbs.len() == 2 {
                proof {
                    let rest = self.limbs@.subrange(1, 2);
                    assert(rest.subrange(1, 1) =~= Seq::<u32>::empty());
                    assert(limbs_value(Seq::<u32>::empty()) == 0);
                    assert(limbs_value(rest) == self.limbs@[1]);
                    assert(limbs_value(self.limbs@) == self.limbs@[0] + limb_base()
                        * limbs_value(rest));
                }
                (lo as u64) + (self.limbs[1] as u64) * 0x1_0000_0000u64
            } else {
                proof {
                    let rest = self.limbs@.subrange(1, 1);
                    assert(rest =~= Seq::<u32>::empty());
                    assert(limbs_value(Seq::<u32>::empty()) == 0);
                    assert(limbs_value(self.limbs@) == self.limbs@[0]);
                }
                lo as u64
            };
            proof {
                assert(w == self@);
            }
            if w <= usize::MAX as u64 {
                Some(w as usize)
            } else {
                None
            }
        }
    }

    /// The process exit code this value asks for: itself if it fits a signed
    /// 32-bit code, nothing otherwise.
    pub fn exit_code(&self) -> (r: Option<i32>)
        requires
            self.wf(),
        ensures
            r is Some <==> i32::MIN <= self@ <= i32::MAX,
            r is Some ==> r->Some_0 == self@,
    {
        proof {
            lemma_zero_iff_empty(self);
            if self.limbs@.len() >= 2 {
                lemma_limbs_value_big(self.limbs@);
            }
        }
        if self.limbs.len() == 0 {
            Some(0)
        } else if self.limbs.len() >= 2 {
            None
        } else {
            let m = self.limbs[0];
            proof {
                assert(self.limbs@.subrange(1, 1) =~= Seq::<u32>::empty());
                assert(limbs_value(Seq::<u32>::empty()) == 0);
                assert(limbs_value(self.limbs@) == m);
            }
            if self.neg {
                if m <= 0x8000_0000 {
                    Some((-(m as i64)) as i32)
                } else {
                    None
                }
            } else {
                if m <= 0x7fff_ffff {
                    Some(m as i32)
                } else {
                    None
                }
            }
        }
    }
}

} // verus!
