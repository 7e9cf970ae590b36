//! Exact rational ray parameters.
use vstd::prelude::*;

verus! {

/// Bound on the numerator and denominator of a well-formed [`Ratio`]; it keeps
/// every cross product used by the comparisons inside `i64`.
pub const RATIO_MAX: i64 = 0x8000_0000;

/// The rational number `num / den`, with a positive denominator. `==` compares
/// the two fields; [`Ratio::same_value`] compares the numbers.
#[derive(Clone, Copy, Debug, PartialEq, Eq, Structural)]
pub struct Ratio {
    pub num: i64,
    pub den: i64,
}

impl Ratio {
    pub open spec fn wf(self) -> bool {
        &&& 1 <= self.den <= RATIO_MAX
        &&& -RATIO_MAX <= self.num <= RATIO_MAX
    }

    /// `self < other` as rational numbers.
    pub open spec fn lt(self, other: Ratio) -> bool {
        (self.num as int) * (other.den as int) < (other.num as int) * (self.den as int)
    }

    /// `self <= other` as rational numbers.
    pub open spec fn le(self, other: Ratio) -> bool {
        (self.num as int) * (other.den as int) <= (other.num as int) * (self.den as int)
    }

    /// `self == other` as rational numbers.
    pub open spec fn same_value(self, other: Ratio) -> bool {
        self.le(other) && other.le(self)
    }

    pub fn new(num: i64, den: i64) -> (r: Ratio)
        requires
            1 <= den <= RATIO_MAX,
            -RATIO_MAX <= num <= RATIO_MAX,
        ensures
            r.wf(),
            r.num == num,
            r.den == den,
    {
        Ratio { num, den }
    }

    /// The integer `n` as a rational number.
    pub fn from_int(n: i64) -> (r: Ratio)
        requires
            -RATIO_MAX <= n <= RATIO_MAX,
        ensures
            r.wf(),
            r.num == n,
            r.den == 1,
    {
        Ratio { num: n, den: 1 }
    }

    pub fn less_than(&self, other: &Ratio) -> (r: bool)
        requires
            self.wf(),
            other.wf(),
        ensures
            r == self.lt(*other),
    {
        proof {
            lemma_cross_bounded(self.num, other.den);
            lemma_cross_bounded(other.num, self.den);
        }
        self.num * other.den < other.num * self.den
    }

    pub fn less_or_equal(&self, other: &Ratio) -> (r: bool)
        requires
            self.wf(),
            other.wf(),
        ensures
            r == self.le(*other),
    {
        proof {
            lemma_cross_bounded(self.num, other.den);
            lemma_cross_bounded(other.num, self.den);
        }
        self.num * other.den <= other.num * self.den
    }
}

proof fn lemma_cross_bounded(n: i64, d: i64)
    requires
        -RATIO_MAX <= n <= RATIO_MAX,
        1 <= d <= RATIO_MAX,
    ensures
        -0x4000_0000_0000_0000 <= (n as int) * (d as int) <= 0x4000_0000_0000_0000,
{
    assert(-0x8000_0000 <= (n as int) <= 0x8000_0000);
    assert(-0x4000_0000_0000_0000 <= (n as int) * (d as int) <= 0x4000_0000_0000_0000)
        by (nonlinear_arith)
        requires
            -0x8000_0000 <= (n as int) <= 0x8000_0000,
            1 <= (d as int) <= 0x8000_0000,
    ;
}

/// Either `a < b` or `b <= a`.
pub proof fn lemma_total(a: Ratio, b: Ratio)
    ensures
        a.lt(b) || b.le(a),
        a.lt(b) <==> !b.le(a),
{
}

pub proof fn lemma_le_refl(a: Ratio)
    ensures
        a.le(a),
{
}

pub proof fn lemma_le_trans(a: Ratio, b: Ratio, c: Ratio)
    requires
        a.wf(),
        b.wf(),
        c.wf(),
        a.le(b),
        b.le(c),
    ensures
        a.le(c),
{
    let (an, ad, bn, bd, cn, cd) = (a.num as int, a.den as int, b.num as int, b.den as int, c.num as int, c.den as int);
    assert(an * cd <= cn * ad) by (nonlinear_arith)
        requires
            an * bd <= bn * ad,
            bn * cd <= cn * bd,
            ad > 0,
            bd > 0,
            cd > 0,
    {
        assert(an * bd * cd <= bn * ad * cd);
        assert(bn * cd * ad <= cn * bd * ad);
        assert(an * cd * bd <= cn * ad * bd);
    }
}

pub proof fn lemma_lt_le_trans(a: Ratio, b: Ratio, c: Ratio)
    requires
        a.wf(),
        b.wf(),
        c.wf(),
        a.lt(b),
        b.le(c),
    ensures
        a.lt(c),
{
    let (an, ad, bn, bd, cn, cd) = (a.num as int, a.den as int, b.num as int, b.den as int, c.num as int, c.den as int);
    assert(an * cd < cn * ad) by (nonlinear_arith)
        requires
            an * bd < bn * ad,
            bn * cd <= cn * bd,
            ad > 0,
            bd > 0,
            cd > 0,
    {
        assert(an * bd * cd < bn * ad * cd);
        assert(bn * cd * ad <= cn * bd * ad);
        assert(an * cd * bd < cn * ad * bd);
    }
}

pub proof fn lemma_le_lt_trans(a: Ratio, b: Ratio, c: Ratio)
    requires
        a.wf(),
        b.wf(),
        c.wf(),
        a.le(b),
        b.lt(c),
    ensures
        a.lt(c),
{
    let (an, ad, bn, bd, cn, cd) = (a.num as int, a.den as int, b.num as int, b.den as int, c.num as int, c.den as int);
    assert(an * cd < cn * ad) by (nonlinear_arith)
        requires
            an * bd <= bn * ad,
            bn * cd < cn * bd,
            ad > 0,
            bd > 0,
            cd > 0,
    {
        assert(an * bd * cd <= bn * ad * cd);
        assert(bn * cd * ad < cn * bd * ad);
        assert(an * cd * bd < cn * ad * bd);
    }
}

/// Two ratios over the same denominator compare as their numerators do.
pub proof fn lemma_same_den(a: Ratio, b: Ratio)
    requires
        a.den == b.den,
        a.den > 0,
    ensures
        a.le(b) <==> a.num <= b.num,
        a.lt(b) <==> a.num < b.num,
{
    let (an, bn, d) = (a.num as int, b.num as int, a.den as int);
    assert(an * d <= bn * d <==> an <= bn) by (nonlinear_arith)
        requires
            d > 0,
    ;
    assert(an * d < bn * d <==> an < bn) by (nonlinear_arith)
        requires
            d > 0,
    ;
}

} // verus!
