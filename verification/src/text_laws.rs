//! Laws of numbers as text, and of the start and the end of a text.

use vstd::prelude::*;
use crate::text::{
    decimal, decimal_value, has_prefix, has_suffix, is_digit, lemma_decimal_reads_back, lemma_unsigned_decimal,
    unsigned, without_plus,
};

verus! {

/// Numbers are written digit by digit: a number below ten as its digit, a larger one as what is in front of
/// its last digit, followed by that digit. A written number is read as itself, up to the largest that is
/// accepted.
pub proof fn law_decimal(n: nat, d: nat, max: nat)
    requires
        d < 10,
    ensures
        decimal(d).len() == 1,
        decimal(d)[0] as nat == '0' as nat + d,
        n > 0 ==> decimal(10 * n + d) == decimal(n) + decimal(d),
        n <= max ==> unsigned(decimal(n), max) == Some(n),
        n > max ==> unsigned(decimal(n), max) is None,
{
    if n > 0 {
        assert((10 * n + d) / 10 == n);
        assert((10 * n + d) % 10 == d);
        assert(decimal(10 * n + d) =~= decimal(n) + decimal(d));
    }
    if n <= max {
        lemma_unsigned_decimal(n, max);
    } else {
        lemma_decimal_reads_back(n);
        assert(is_digit(decimal(n)[0]));
        assert(without_plus(decimal(n)) == decimal(n));
    }
}

/// The text is one digit or more.
pub open spec fn is_digits(s: Seq<char>) -> bool {
    s.len() > 0 && forall|i: int| 0 <= i < s.len() ==> '0' <= #[trigger] s[i] <= '9'
}

/// A number is read from digits, which a plus sign may precede: each further digit counts the ones before it
/// tenfold. What is larger than the largest accepted, and whatever else a text may be, is no number.
pub proof fn law_unsigned(s: Seq<char>, c: char, max: nat)
    ensures
        is_digits(s) ==> unsigned("+"@ + s, max) == unsigned(s, max),
        is_digits(s) && '0' <= c <= '9' ==> match unsigned(s, max) {
            Some(v) => unsigned(s.push(c), max) == if 10 * v + (c as nat - '0' as nat) <= max {
                Some((10 * v + (c as nat - '0' as nat)) as nat)
            } else {
                None
            },
            None => unsigned(s.push(c), max) is None,
        },
        '0' <= c <= '9' ==> unsigned(seq![c], max) == if c as nat - '0' as nat <= max {
            Some((c as nat - '0' as nat) as nat)
        } else {
            None
        },
        !is_digits(s) && !(exists|t: Seq<char>| is_digits(t) && s == #[trigger] ("+"@ + t)) ==> unsigned(s, max) is None,
{
    reveal_strlit("+");
    let plus = "+"@ + s;
    if is_digits(s) {
        assert(plus[0] == '+');
        assert(plus.skip(1) =~= s);
        assert('0' <= s[0] <= '9');
        assert(without_plus(s) == s);
        assert(forall|i: int| 0 <= i < s.len() ==> is_digit(#[trigger] s[i]));
        if '0' <= c <= '9' {
            let more = s.push(c);
            assert(more[0] == s[0]);
            assert(more.drop_last() =~= s);
            assert(without_plus(more) == more);
            assert forall|i: int| 0 <= i < more.len() implies is_digit(#[trigger] more[i]) by {
                if i < s.len() {
                    assert(more[i] == s[i]);
                }
            }
            assert(decimal_value(more) == decimal_value(s) * 10 + (c as nat - 48));
        }
    }
    if '0' <= c <= '9' {
        let one = seq![c];
        assert(one.drop_last() =~= Seq::empty());
        assert(without_plus(one) == one);
        reveal_with_fuel(decimal_value, 2);
        assert(decimal_value(one) == c as nat - 48);
    }
    if unsigned(s, max) is Some {
        let d = without_plus(s);
        assert(is_digits(d)) by {
            assert forall|i: int| 0 <= i < d.len() implies '0' <= #[trigger] d[i] <= '9' by {
                assert(is_digit(d[i]));
            }
        }
        if s[0] == '+' {
            assert("+"@ + d =~= s);
        }
    }
}

/// A text starts with another exactly where it is that text with something behind it, and ends with another
/// exactly where it is that text with something in front of it.
pub proof fn law_prefix_and_suffix(s: Seq<char>, p: Seq<char>)
    ensures
        has_prefix(s, p) <==> exists|rest: Seq<char>| s == #[trigger] (p + rest),
        has_suffix(s, p) <==> exists|front: Seq<char>| s == #[trigger] (front + p),
{
    if has_prefix(s, p) {
        assert(s =~= p + s.skip(p.len() as int));
    }
    if exists|rest: Seq<char>| s == #[trigger] (p + rest) {
        assert(s.subrange(0, p.len() as int) =~= p);
    }
    if has_suffix(s, p) {
        let n = s.len() - p.len();
        let front = s.take(n);
        assert forall|i: int| 0 <= i < s.len() implies s[i] == #[trigger] (front + p)[i] by {
            if i >= n {
                assert(s.subrange(n, s.len() as int)[i - n] == s[i]);
            }
        }
        assert(s =~= front + p);
    }
    if exists|front: Seq<char>| s == #[trigger] (front + p) {
        assert(s.subrange(s.len() - p.len(), s.len() as int) =~= p);
    }
}

} // verus!
