//! Decimal numerals: reading an unsigned integer as `str::parse::<usize>` does, and writing
//! one as `format!("{}", n)` does.
use vstd::prelude::*;
use crate::text::chars_of;

verus! {

/// Whether `c` is an ASCII digit.
pub open spec fn is_digit(c: char) -> bool {
    '0' <= c && c <= '9'
}

/// The value of the decimal digits `d`, most significant first.
pub open spec fn digits_value(d: Seq<char>) -> nat
    decreases d.len(),
{
    if d.len() == 0 {
        0
    } else {
        digits_value(d.drop_last()) * 10 + (d.last() as nat - '0' as nat) as nat
    }
}

/// `s` without a leading `+`.
pub open spec fn unsigned_part(s: Seq<char>) -> Seq<char> {
    if s.len() > 0 && s[0] == '+' {
        s.skip(1)
    } else {
        s
    }
}

/// Every character of `d` is a digit.
pub open spec fn all_digits(d: Seq<char>) -> bool {
    forall|i: int| 0 <= i < d.len() ==> is_digit(#[trigger] d[i])
}

/// What `str::parse::<usize>` gives for `s`: an optional `+`, then one digit or more whose
/// value fits in `usize`; anything else is refused.
pub open spec fn parsed_usize(s: Seq<char>) -> Option<usize> {
    let d = unsigned_part(s);
    if d.len() == 0 {
        None
    } else if !all_digits(d) {
        None
    } else if digits_value(d) > usize::MAX {
        None
    } else {
        Some(digits_value(d) as usize)
    }
}

/// A larger prefix of digits has at least the value of a smaller one.
proof fn lemma_digits_grow(d: Seq<char>, k: int)
    requires
        0 <= k <= d.len(),
        forall|i: int| 0 <= i < d.len() ==> is_digit(#[trigger] d[i]),
    ensures
        digits_value(d.take(k)) <= digits_value(d),
    decreases d.len() - k,
{
    if k < d.len() {
        assert(d.drop_last().take(k) =~= d.take(k));
        assert forall|i: int| 0 <= i < d.drop_last().len() implies is_digit(#[trigger] d.drop_last()[i]) by {
            assert(d.drop_last()[i] == d[i]);
        }
        lemma_digits_grow(d.drop_last(), k);
    } else {
        assert(d.take(k) =~= d);
    }
}

/// Reads `s` as `str::parse::<usize>` does; `None` where it refuses.
pub fn parse_usize(s: &str) -> (r: Option<usize>)
    ensures
        r == parsed_usize(s@),
{
    let cs = chars_of(s);
    let start: usize = if cs.len() > 0 && cs[0] == '+' { 1 } else { 0 };
    let ghost d = unsigned_part(s@);
    assert(d =~= cs@.skip(start as int));
    if start >= cs.len() {
        return None;
    }
    let mut v: usize = 0;
    let mut i: usize = start;
    while i < cs.len()
        invariant
            start <= i <= cs@.len(),
            start < cs@.len(),
            cs@ == s@,
            d == cs@.skip(start as int),
            d == unsigned_part(s@),
            forall|j: int| 0 <= j < i - start ==> is_digit(#[trigger] d[j]),
            v == digits_value(d.take(i - start)),
        decreases cs@.len() - i,
    {
        let c = cs[i];
        if c < '0' || c > '9' {
            assert(!is_digit(d[i - start]));
            assert(d.len() > 0);
            assert(parsed_usize(s@) is None);
            return None;
        }
        let dv = (c as u32 - '0' as u32) as usize;
        proof {
            assert(d.take(i - start + 1).drop_last() =~= d.take(i - start));
            assert(d.take(i - start + 1).last() == c);
        }
        if v > (usize::MAX - dv) / 10 {
            proof {
                assert(digits_value(d.take(i - start + 1)) == v * 10 + dv);
                assert(v * 10 + dv > usize::MAX) by (nonlinear_arith)
                    requires
                        v > (usize::MAX - dv) / 10,
                        dv <= 9,
                ;
            }
            let rest = check_digits(&cs, i + 1);
            proof {
                if rest {
                    assert forall|j: int| 0 <= j < d.len() implies is_digit(#[trigger] d[j]) by {
                        if j == i - start {
                            assert(d[j] == c);
                        } else if j > i - start {
                            assert(d[j] == cs@[start + j]);
                        }
                    }
                    lemma_digits_grow(d, i - start + 1);
                } else {
                    let j = choose|j: int| i + 1 <= j < cs@.len() && !is_digit(#[trigger] cs@[j]);
                    assert(d[j - start] == cs@[j]);
                }
                assert(d.len() > 0);
                assert(parsed_usize(s@) is None);
            }
            return None;
        }
        proof {
            assert(v * 10 + dv <= usize::MAX) by (nonlinear_arith)
                requires
                    v <= (usize::MAX - dv) / 10,
                    dv <= 9,
            ;
        }
        v = v * 10 + dv;
        i = i + 1;
    }
    assert(d.take(i - start) =~= d);
    Some(v)
}

/// Whether every character of `cs` from `from` on is a digit.
fn check_digits(cs: &Vec<char>, from: usize) -> (r: bool)
    requires
        from <= cs@.len(),
    ensures
        r == forall|j: int| from <= j < cs@.len() ==> is_digit(#[trigger] cs@[j]),
{
    let mut i: usize = from;
    while i < cs.len()
        invariant
            from <= i <= cs@.len(),
            forall|j: int| from <= j < i ==> is_digit(#[trigger] cs@[j]),
        decreases cs@.len() - i,
    {
        if cs[i] < '0' || cs[i] > '9' {
            return false;
        }
        i = i + 1;
    }
    true
}

/// The decimal digits of `n`, most significant first, without leading zeros ("0" for 0).
pub open spec fn decimal(n: nat) -> Seq<char>
    decreases n,
{
    if n < 10 {
        seq![(n + '0' as nat) as char]
    } else {
        decimal(n / 10).push(((n % 10) + '0' as nat) as char)
    }
}

/// The decimal numeral of `n`, as `format!("{}", n)` writes it.
pub fn to_decimal(n: usize) -> (r: String)
    ensures
        r@ == decimal(n as nat),
{
    let mut digits: Vec<char> = Vec::new();
    let mut m: usize = n;
    let ghost mut rest: Seq<char> = seq![];
    while m >= 10
        invariant
            decimal(n as nat) == decimal(m as nat) + digits@.reverse(),
        decreases m,
    {
        let d = m % 10;
        let c = ((d as u32) + ('0' as u32)) as u8 as char;
        proof {
            assert(c == ((m % 10) + '0' as nat) as char);
            assert(decimal(m as nat) == decimal((m / 10) as nat).push(c));
            assert(digits@.push(c).reverse() =~= seq![c] + digits@.reverse());
            assert(decimal((m / 10) as nat).push(c) + digits@.reverse() =~= decimal((m / 10) as nat) + (seq![c] + digits@.reverse()));
        }
        digits.push(c);
        m = m / 10;
    }
    let c = ((m as u32) + ('0' as u32)) as u8 as char;
    assert(decimal(m as nat) =~= seq![c]);
    let mut out: Vec<char> = Vec::new();
    out.push(c);
    let mut k: usize = digits.len();
    while k > 0
        invariant
            k <= digits@.len(),
            out@ == seq![c] + digits@.skip(k as int).reverse(),
        decreases k,
    {
        k = k - 1;
        proof {
            assert(digits@.skip(k as int).reverse() =~= digits@.skip(k as int + 1).reverse().push(digits@[k as int]));
        }
        out.push(digits[k]);
        assert(out@ =~= seq![c] + digits@.skip(k as int).reverse());
    }
    assert(digits@.skip(0) =~= digits@);
    assert(out@ =~= decimal(n as nat));
    crate::text::string_of(&out)
}


/// The numeral of `n` is all digits, starts with a digit, and has the value `n`.
pub proof fn lemma_decimal_value(n: nat)
    ensures
        all_digits(decimal(n)),
        decimal(n).len() > 0,
        digits_value(decimal(n)) == n,
    decreases n,
{
    if n >= 10 {
        lemma_decimal_value(n / 10);
        let d = decimal(n / 10);
        let c = ((n % 10) + '0' as nat) as char;
        assert(decimal(n).drop_last() =~= d);
        assert forall|i: int| 0 <= i < decimal(n).len() implies is_digit(#[trigger] decimal(n)[i]) by {
            if i < d.len() {
                assert(decimal(n)[i] == d[i]);
            }
        }
        assert(c as nat == n % 10 + '0' as nat);
        assert(digits_value(decimal(n)) == digits_value(d) * 10 + n % 10);
        assert(n == (n / 10) * 10 + n % 10) by (nonlinear_arith);
    } else {
        let c = (n + '0' as nat) as char;
        assert(c as nat == n + '0' as nat);
        assert(decimal(n).drop_last() =~= Seq::<char>::empty());
        assert(decimal(n).last() == c);
        assert(digits_value(decimal(n).drop_last()) == 0);
        assert(digits_value(decimal(n)) == digits_value(decimal(n).drop_last()) * 10 + (c as nat - '0' as nat));
    }
}

/// Reading back the numeral that `to_decimal` writes gives the number again.
pub proof fn lemma_parse_decimal(n: usize)
    ensures
        parsed_usize(decimal(n as nat)) == Some(n),
{
    lemma_decimal_value(n as nat);
    assert(is_digit(decimal(n as nat)[0]));
    assert(unsigned_part(decimal(n as nat)) == decimal(n as nat));
}

} // verus!
