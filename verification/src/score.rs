//! Exact fractional scores and their order.
use vstd::prelude::*;
use vstd::arithmetic::div_mod::{lemma_fundamental_div_mod, lemma_mod_pos_bound};

verus! {

/// The fraction `num / den`.
#[derive(Clone, Copy, PartialEq, Eq, Structural, Debug)]
pub struct Score {
    pub num: u128,
    pub den: u128,
}

/// `a` is less than `b` as fractions.
pub open spec fn score_lt(a: Score, b: Score) -> bool {
    a.num * b.den < b.num * a.den
}

/// `a` is at most `b` as fractions.
pub open spec fn score_le(a: Score, b: Score) -> bool {
    a.num * b.den <= b.num * a.den
}

/// `a` and `b` are the same fraction.
pub open spec fn score_eq(a: Score, b: Score) -> bool {
    a.num * b.den == b.num * a.den
}

/// Whether `a / b < c / d`, for positive `b` and `d`, decided without overflow by
/// comparing integer parts and then the reciprocals of the remainders.
pub fn frac_lt(a: u128, b: u128, c: u128, d: u128) -> (r: bool)
    requires
        b > 0,
        d > 0,
    ensures
        r == (a * d < c * b),
    decreases b + d,
{
    let q1 = a / b;
    let r1 = a % b;
    let q2 = c / d;
    let r2 = c % d;
    proof {
        lemma_fundamental_div_mod(a as int, b as int);
        lemma_fundamental_div_mod(c as int, d as int);
        lemma_mod_pos_bound(a as int, b as int);
        lemma_mod_pos_bound(c as int, d as int);
    }
    if q1 < q2 {
        proof {
            lemma_quotients_decide(a as int, b as int, c as int, d as int, q1 as int, r1 as int, q2 as int, r2 as int);
        }
        return true;
    }
    if q2 < q1 {
        proof {
            lemma_quotients_decide(c as int, d as int, a as int, b as int, q2 as int, r2 as int, q1 as int, r1 as int);
        }
        return false;
    }
    proof {
        lemma_same_quotient(a as int, b as int, c as int, d as int, q1 as int, r1 as int, r2 as int);
    }
    if r2 == 0 {
        proof {
            assert(r1 * d >= 0) by (nonlinear_arith)
                requires
                    r1 >= 0,
                    d > 0,
            ;
            assert(r2 * b == 0) by (nonlinear_arith)
                requires
                    r2 == 0,
            ;
        }
        return false;
    }
    if r1 == 0 {
        proof {
            assert(r2 * b > 0) by (nonlinear_arith)
                requires
                    r2 > 0,
                    b > 0,
            ;
            assert(r1 * d == 0) by (nonlinear_arith)
                requires
                    r1 == 0,
            ;
        }
        return true;
    }
    let r = frac_lt(d, r2, b, r1);
    proof {
        assert(d * r1 == r1 * d) by (nonlinear_arith);
        assert(b * r2 == r2 * b) by (nonlinear_arith);
    }
    r
}

/// A smaller integer part means a smaller fraction.
proof fn lemma_quotients_decide(a: int, b: int, c: int, d: int, q1: int, r1: int, q2: int, r2: int)
    by (nonlinear_arith)
    requires
        b > 0,
        d > 0,
        a == b * q1 + r1,
        c == d * q2 + r2,
        0 <= r1 < b,
        0 <= r2 < d,
        q1 < q2,
    ensures
        a * d < c * b,
{
}

/// With equal integer parts, the fractions compare as their remainders do.
proof fn lemma_same_quotient(a: int, b: int, c: int, d: int, q: int, r1: int, r2: int)
    by (nonlinear_arith)
    requires
        a == b * q + r1,
        c == d * q + r2,
    ensures
        (a * d < c * b) == (r1 * d < r2 * b),
{
}

/// Whether `a` is less than `b`.
pub fn score_less(a: Score, b: Score) -> (r: bool)
    requires
        a.den > 0,
        b.den > 0,
    ensures
        r == score_lt(a, b),
{
    frac_lt(a.num, a.den, b.num, b.den)
}

/// The order of fractions is transitive.
pub proof fn lemma_score_trans(a: Score, b: Score, c: Score)
    requires
        a.den > 0,
        b.den > 0,
        c.den > 0,
    ensures
        score_le(a, b) && score_le(b, c) ==> score_le(a, c),
        score_le(a, b) && score_lt(b, c) ==> score_lt(a, c),
        score_lt(a, b) && score_le(b, c) ==> score_lt(a, c),
{
    let an = a.num as int;
    let ad = a.den as int;
    let bn = b.num as int;
    let bd = b.den as int;
    let cn = c.num as int;
    let cd = c.den as int;
    lemma_cross(an, ad, bn, bd, cn, cd);
}

proof fn lemma_cross(an: int, ad: int, bn: int, bd: int, cn: int, cd: int)
    requires
        ad > 0,
        bd > 0,
        cd > 0,
        an >= 0,
        bn >= 0,
        cn >= 0,
    ensures
        an * bd <= bn * ad && bn * cd <= cn * bd ==> an * cd <= cn * ad,
        an * bd <= bn * ad && bn * cd < cn * bd ==> an * cd < cn * ad,
        an * bd < bn * ad && bn * cd <= cn * bd ==> an * cd < cn * ad,
{
    if an * bd <= bn * ad && bn * cd <= cn * bd {
        lemma_chain(an, ad, bn, bd, cn, cd, false, false);
    }
    if an * bd <= bn * ad && bn * cd < cn * bd {
        lemma_chain(an, ad, bn, bd, cn, cd, false, true);
    }
    if an * bd < bn * ad && bn * cd <= cn * bd {
        lemma_chain(an, ad, bn, bd, cn, cd, true, false);
    }
}

proof fn lemma_chain(an: int, ad: int, bn: int, bd: int, cn: int, cd: int, s1: bool, s2: bool)
    requires
        ad > 0,
        bd > 0,
        cd > 0,
        if s1 { an * bd < bn * ad } else { an * bd <= bn * ad },
        if s2 { bn * cd < cn * bd } else { bn * cd <= cn * bd },
    ensures
        if s1 || s2 { an * cd < cn * ad } else { an * cd <= cn * ad },
{
    // an*bd*cd <= bn*ad*cd and bn*cd*ad <= cn*bd*ad, so an*cd*bd <= cn*ad*bd.
    let x = an * bd * cd;
    let y = bn * ad * cd;
    let z = cn * bd * ad;
    if s1 {
        assert(x < y) by (nonlinear_arith)
            requires
                an * bd < bn * ad,
                cd > 0,
                x == an * bd * cd,
                y == bn * ad * cd,
        ;
    } else {
        assert(x <= y) by (nonlinear_arith)
            requires
                an * bd <= bn * ad,
                cd > 0,
                x == an * bd * cd,
                y == bn * ad * cd,
        ;
    }
    if s2 {
        assert(y < z) by (nonlinear_arith)
            requires
                bn * cd < cn * bd,
                ad > 0,
                y == bn * ad * cd,
                z == cn * bd * ad,
        ;
    } else {
        assert(y <= z) by (nonlinear_arith)
            requires
                bn * cd <= cn * bd,
                ad > 0,
                y == bn * ad * cd,
                z == cn * bd * ad,
        ;
    }
    if s1 || s2 {
        assert(an * cd < cn * ad) by (nonlinear_arith)
            requires
                x < z,
                bd > 0,
                x == an * bd * cd,
                z == cn * bd * ad,
        ;
    } else {
        assert(an * cd <= cn * ad) by (nonlinear_arith)
            requires
                x <= z,
                bd > 0,
                x == an * bd * cd,
                z == cn * bd * ad,
        ;
    }
}

} // verus!
