//! Signed durations and duration division.
//!
//! Durations are nanosecond counts; a [`Signed`] value tags one with a
//! direction, so drift math can subtract across signs by magnitude.

use vstd::prelude::*;

verus! {

use vstd::arithmetic::div_mod::lemma_fundamental_div_mod;

/// Splits `numerator` into whole steps of `denominator` plus a remainder.
///
/// Frames are 32-bit ordinals, so the quotient must fit in one.
pub fn div_duration(numerator: u64, denominator: u64) -> (r: (u32, u64))
    requires
        denominator > 0,
        numerator as int / denominator as int <= u32::MAX as int,
    ensures
        denominator as int * r.0 as int + r.1 as int == numerator as int,
        r.1 < denominator,
{
    proof {
        lemma_fundamental_div_mod(numerator as int, denominator as int);
    }
    let q = numerator / denominator;
    let rem = numerator % denominator;
    (q as u32, rem)
}

/// A duration with a direction: `Pos` runs forward, `Neg` backward.
#[derive(Clone, Copy, Debug, PartialEq, Eq, Structural)]
pub enum Signed {
    Pos(u64),
    Neg(u64),
}

/// The signed value as a mathematical integer.
pub open spec fn sval(s: Signed) -> int {
    match s {
        Signed::Pos(t) => t as int,
        Signed::Neg(t) => -(t as int),
    }
}

/// The magnitude of a signed duration.
pub open spec fn smag(s: Signed) -> int {
    match s {
        Signed::Pos(t) => t as int,
        Signed::Neg(t) => t as int,
    }
}

/// Sign-aware addition: magnitudes subtract when the signs differ, and the
/// larger magnitude decides the sign of the result.
pub open spec fn spec_plus(a: Signed, b: Signed) -> Signed {
    match (a, b) {
        (Signed::Pos(t), Signed::Pos(u)) => Signed::Pos((t + u) as u64),
        (Signed::Neg(t), Signed::Neg(u)) => Signed::Neg((t + u) as u64),
        (Signed::Pos(t), Signed::Neg(u)) => if t > u {
            Signed::Pos((t - u) as u64)
        } else {
            Signed::Neg((u - t) as u64)
        },
        (Signed::Neg(t), Signed::Pos(u)) => if t > u {
            Signed::Neg((t - u) as u64)
        } else {
            Signed::Pos((u - t) as u64)
        },
    }
}

/// Exact negation: `Neg` and `Pos` swap, magnitude unchanged.
pub open spec fn spec_neg(a: Signed) -> Signed {
    match a {
        Signed::Pos(t) => Signed::Neg(t),
        Signed::Neg(t) => Signed::Pos(t),
    }
}

/// Total order: every `Neg` sorts before every `Pos`, and within `Neg` the
/// larger magnitude sorts first.
pub open spec fn spec_le(a: Signed, b: Signed) -> bool {
    match (a, b) {
        (Signed::Pos(t), Signed::Pos(u)) => t <= u,
        (Signed::Neg(t), Signed::Neg(u)) => u <= t,
        (Signed::Pos(_), Signed::Neg(_)) => false,
        (Signed::Neg(_), Signed::Pos(_)) => true,
    }
}

/// The sum of a sequence of signed durations, folded left to right.
pub open spec fn spec_sum(s: Seq<Signed>) -> Signed
    decreases s.len(),
{
    if s.len() == 0 {
        Signed::Pos(0)
    } else {
        spec_plus(spec_sum(s.drop_last()), s.last())
    }
}

/// The sum of the underlying integers of a sequence.
pub open spec fn sum_sval(s: Seq<Signed>) -> int
    decreases s.len(),
{
    if s.len() == 0 {
        0
    } else {
        sum_sval(s.drop_last()) + sval(s.last())
    }
}

/// The sum of the magnitudes of a sequence.
pub open spec fn sum_smag(s: Seq<Signed>) -> int
    decreases s.len(),
{
    if s.len() == 0 {
        0
    } else {
        sum_smag(s.drop_last()) + smag(s.last())
    }
}

/// Sign-aware addition realises integer addition.
pub proof fn lemma_plus_sval(a: Signed, b: Signed)
    requires
        smag(a) + smag(b) <= u64::MAX,
    ensures
        sval(spec_plus(a, b)) == sval(a) + sval(b),
        smag(spec_plus(a, b)) <= smag(a) + smag(b),
{
}

/// Negation realises integer negation, and `-Neg(d) == Pos(d)`.
pub proof fn lemma_neg_sval(a: Signed)
    ensures
        sval(spec_neg(a)) == -sval(a),
        smag(spec_neg(a)) == smag(a),
        spec_neg(spec_neg(a)) == a,
{
}

/// The order is consistent with the integer value: it refines integer
/// comparison, disagreeing only on how the two zeros tie.
pub proof fn lemma_le_sval(a: Signed, b: Signed)
    ensures
        spec_le(a, b) ==> sval(a) <= sval(b),
        sval(a) < sval(b) ==> spec_le(a, b),
{
}

/// Summation of a mixed-sign list yields the arithmetic sum of the signed
/// values, whenever the total magnitude is representable.
pub proof fn lemma_sum_sval(s: Seq<Signed>)
    requires
        sum_smag(s) <= u64::MAX,
    ensures
        sval(spec_sum(s)) == sum_sval(s),
        smag(spec_sum(s)) <= sum_smag(s),
    decreases s.len(),
{
    if s.len() > 0 {
        lemma_smag_nonneg(s.drop_last());
        lemma_sum_sval(s.drop_last());
        lemma_plus_sval(spec_sum(s.drop_last()), s.last());
    }
}

pub proof fn lemma_smag_nonneg(s: Seq<Signed>)
    ensures
        sum_smag(s) >= 0,
    decreases s.len(),
{
    if s.len() > 0 {
        lemma_smag_nonneg(s.drop_last());
    }
}

impl Signed {
    /// The magnitude, discarding the direction.
    pub fn abs(self) -> (r: u64)
        ensures
            r as int == smag(self),
    {
        match self {
            Signed::Pos(t) => t,
            Signed::Neg(t) => t,
        }
    }

    /// Replaces the magnitude through `f`, keeping the direction.
    pub fn map<F: FnOnce(u64) -> u64>(self, f: F) -> (r: Signed)
        requires
            f.requires((self.abs_spec(),)),
        ensures
            f.ensures((self.abs_spec(),), r.abs_spec()),
            r is Pos <==> self is Pos,
    {
        match self {
            Signed::Pos(t) => Signed::Pos(f(t)),
            Signed::Neg(t) => Signed::Neg(f(t)),
        }
    }

    /// The magnitude as a spec value.
    pub open spec fn abs_spec(self) -> u64 {
        match self {
            Signed::Pos(t) => t,
            Signed::Neg(t) => t,
        }
    }

    /// Lengthens the magnitude by `other`, keeping the direction.
    pub fn stretch(self, other: u64) -> (r: Signed)
        requires
            smag(self) + other <= u64::MAX,
        ensures
            smag(r) == smag(self) + other,
            r is Pos <==> self is Pos,
    {
        match self {
            Signed::Pos(t) => Signed::Pos(t + other),
            Signed::Neg(t) => Signed::Neg(t + other),
        }
    }

    /// Applies the signed delta to the instant `other`, moving it forward for
    /// `Pos` and backward for `Neg`.
    pub fn add_to(self, other: u64) -> (r: u64)
        requires
            0 <= other + sval(self) <= u64::MAX,
        ensures
            r as int == other + sval(self),
    {
        match self {
            Signed::Pos(t) => other + t,
            Signed::Neg(t) => other - t,
        }
    }

    /// Subtracts the signed delta from the instant `other`.
    pub fn sub_from(self, other: u64) -> (r: u64)
        requires
            0 <= other - sval(self) <= u64::MAX,
        ensures
            r as int == other - sval(self),
    {
        match self {
            Signed::Pos(t) => other - t,
            Signed::Neg(t) => other + t,
        }
    }

    /// The magnitude if the direction is forward, `None` otherwise.
    pub fn pos(self) -> (r: Option<u64>)
        ensures
            r == match self {
                Signed::Pos(t) => Some(t),
                Signed::Neg(_) => None::<u64>,
            },
    {
        match self {
            Signed::Pos(t) => Some(t),
            Signed::Neg(_) => None,
        }
    }

    /// Sign-aware addition.
    pub fn plus(self, other: Signed) -> (r: Signed)
        requires
            smag(self) + smag(other) <= u64::MAX,
        ensures
            r == spec_plus(self, other),
    {
        match (self, other) {
            (Signed::Pos(t), Signed::Pos(u)) => Signed::Pos(t + u),
            (Signed::Neg(t), Signed::Neg(u)) => Signed::Neg(t + u),
            (Signed::Pos(t), Signed::Neg(u)) => if t > u {
                Signed::Pos(t - u)
            } else {
                Signed::Neg(u - t)
            },
            (Signed::Neg(t), Signed::Pos(u)) => if t > u {
                Signed::Neg(t - u)
            } else {
                Signed::Pos(u - t)
            },
        }
    }

    /// Sign-aware subtraction: adds the negation.
    pub fn minus(self, other: Signed) -> (r: Signed)
        requires
            smag(self) + smag(other) <= u64::MAX,
        ensures
            r == spec_plus(self, spec_neg(other)),
    {
        self.plus(other.negated())
    }

    /// Flips the direction.
    pub fn negated(self) -> (r: Signed)
        ensures
            r == spec_neg(self),
    {
        match self {
            Signed::Pos(t) => Signed::Neg(t),
            Signed::Neg(t) => Signed::Pos(t),
        }
    }

    /// Divides the magnitude, keeping the direction.
    pub fn div_by(self, d: u32) -> (r: Signed)
        requires
            d > 0,
        ensures
            smag(r) == smag(self) / d as int,
            r is Pos <==> self is Pos,
    {
        match self {
            Signed::Pos(t) => Signed::Pos(t / d as u64),
            Signed::Neg(t) => Signed::Neg(t / d as u64),
        }
    }

    /// Whether `self` sorts at or before `other`.
    pub fn le(self, other: Signed) -> (r: bool)
        ensures
            r == spec_le(self, other),
    {
        match (self, other) {
            (Signed::Pos(t), Signed::Pos(u)) => t <= u,
            (Signed::Neg(t), Signed::Neg(u)) => u <= t,
            (Signed::Pos(_), Signed::Neg(_)) => false,
            (Signed::Neg(_), Signed::Pos(_)) => true,
        }
    }

    /// Restricts `self` to the closed interval `[lo, hi]`.
    pub fn clamp_to(self, lo: Signed, hi: Signed) -> (r: Signed)
        requires
            spec_le(lo, hi),
        ensures
            r == if spec_le(self, lo) {
                lo
            } else if spec_le(hi, self) {
                hi
            } else {
                self
            },
            spec_le(lo, r) && spec_le(r, hi),
    {
        if self.le(lo) {
            lo
        } else if hi.le(self) {
            hi
        } else {
            self
        }
    }

    /// The sum of a list of signed durations.
    pub fn sum_of(v: &Vec<Signed>) -> (r: Signed)
        requires
            sum_smag(v@) <= u64::MAX,
        ensures
            r == spec_sum(v@),
            sval(r) == sum_sval(v@),
    {
        proof {
            lemma_sum_sval(v@);
        }
        let mut acc = Signed::Pos(0);
        let mut i: usize = 0;
        while i < v.len()
            invariant
                i <= v@.len(),
                acc == spec_sum(v@.take(i as int)),
                sum_smag(v@) <= u64::MAX,
            decreases v@.len() - i,
        {
            proof {
                lemma_sum_smag_prefix(v@, i as int + 1);
                lemma_sum_smag_prefix(v@, i as int);
                lemma_sum_sval(v@.take(i as int + 1));
                lemma_sum_sval(v@.take(i as int));
                lemma_smag_nonneg(v@.take(i as int));
                assert(v@.take(i as int + 1).drop_last() =~= v@.take(i as int));
                assert(v@.take(i as int + 1).last() == v@[i as int]);
            }
            acc = acc.plus(v[i]);
            i += 1;
        }
        proof {
            assert(v@.take(v@.len() as int) =~= v@);
        }
        acc
    }
}

/// A prefix's magnitude sum is bounded by the whole sequence's.
pub proof fn lemma_sum_smag_prefix(s: Seq<Signed>, n: int)
    requires
        0 <= n <= s.len(),
    ensures
        sum_smag(s.take(n)) <= sum_smag(s),
    decreases s.len() - n,
{
    if n == s.len() {
        assert(s.take(n) =~= s);
    } else {
        lemma_sum_smag_prefix(s, n + 1);
        assert(s.take(n + 1).drop_last() =~= s.take(n));
        assert(smag(s.take(n + 1).last()) >= 0);
    }
}

} // verus!
