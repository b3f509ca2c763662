//! Arithmetic on runs of decimal digits: powers of ten, and the value of a run read whole
//! or in pieces.
use vstd::prelude::*;
use crate::number::decimal_value;

verus! {

/// Ten to the `k`.
pub open spec fn pow10(k: nat) -> nat
    decreases k,
{
    if k == 0 { 1 } else { 10 * pow10((k - 1) as nat) }
}

/// Whether every byte of a run is a decimal digit.
pub open spec fn all_digits(s: Seq<u8>) -> bool {
    forall|i: int| 0 <= i < s.len() ==> 48 <= #[trigger] s[i] <= 57
}

/// Powers of ten grow with their exponent, by at least a factor of ten a step.
pub proof fn lemma_pow10_grows(a: nat, b: nat)
    requires
        a <= b,
    ensures
        1 <= pow10(a) <= pow10(b),
        a < b ==> 10 * pow10(a) <= pow10(b),
    decreases b,
{
    if b > 0 {
        if a < b {
            lemma_pow10_grows(a, (b - 1) as nat);
        } else {
            lemma_pow10_grows((b - 1) as nat, (b - 1) as nat);
        }
    }
}

/// The value of one run followed by another: the first shifted past the second, plus the
/// second.
pub proof fn lemma_value_concat(a: Seq<u8>, b: Seq<u8>)
    ensures
        decimal_value(a + b) == decimal_value(a) * pow10(b.len()) + decimal_value(b),
    decreases b.len(),
{
    if b.len() == 0 {
        assert(a + b =~= a);
        let x = decimal_value(a);
        assert(x * 1 == x) by (nonlinear_arith);
        assert(decimal_value(b) == 0);
    } else {
        let b0 = b.drop_last();
        assert((a + b).drop_last() =~= a + b0);
        assert((a + b).last() == b.last());
        lemma_value_concat(a, b0);
        let x = decimal_value(a);
        let p = pow10(b0.len());
        let y = decimal_value(b0);
        let z = (b.last() - 48) as nat;
        assert(decimal_value(a + b) == decimal_value(a + b0) * 10 + z);
        assert(decimal_value(b) == y * 10 + z);
        assert(pow10(b.len()) == 10 * p);
        assert((x * p + y) * 10 == x * (10 * p) + y * 10) by (nonlinear_arith);
    }
}

/// A run of digits is worth less than ten to its length.
pub proof fn lemma_value_bound(s: Seq<u8>)
    requires
        all_digits(s),
    ensures
        decimal_value(s) < pow10(s.len()),
    decreases s.len(),
{
    if s.len() > 0 {
        let s0 = s.drop_last();
        assert(all_digits(s0)) by {
            assert forall|i: int| 0 <= i < s0.len() implies 48 <= #[trigger] s0[i] <= 57 by {
                assert(s0[i] == s[i]);
            }
        }
        assert(48 <= s[s.len() - 1] <= 57);
        lemma_value_bound(s0);
    }
}

/// A run of digits is worth nothing exactly when all its digits are zeros.
pub proof fn lemma_value_zero(s: Seq<u8>)
    requires
        all_digits(s),
    ensures
        decimal_value(s) == 0 <==> (forall|i: int| 0 <= i < s.len() ==> #[trigger] s[i] == 48),
    decreases s.len(),
{
    if s.len() > 0 {
        let s0 = s.drop_last();
        assert(all_digits(s0)) by {
            assert forall|i: int| 0 <= i < s0.len() implies 48 <= #[trigger] s0[i] <= 57 by {
                assert(s0[i] == s[i]);
            }
        }
        assert(48 <= s[s.len() - 1] <= 57);
        lemma_value_zero(s0);
        if decimal_value(s) == 0 {
            assert forall|i: int| 0 <= i < s.len() implies #[trigger] s[i] == 48 by {
                if i < s.len() - 1 {
                    assert(s0[i] == s[i]);
                }
            }
        }
        if forall|i: int| 0 <= i < s.len() ==> #[trigger] s[i] == 48 {
            assert forall|i: int| 0 <= i < s0.len() implies #[trigger] s0[i] == 48 by {
                assert(s0[i] == s[i]);
            }
            assert(s[s.len() - 1] == 48);
        }
    }
}

/// A single digit is worth itself.
pub proof fn lemma_value_digit(x: u8)
    requires
        48 <= x <= 57,
    ensures
        decimal_value(seq![x]) == x - 48,
{
    let s = seq![x];
    assert(s.drop_last() =~= Seq::<u8>::empty());
    assert(s.last() == x);
    assert(decimal_value(s) == decimal_value(s.drop_last()) * 10 + (s.last() - 48) as nat);
}

/// Changing one digit of a run changes its value by the change times the digit's place.
pub proof fn lemma_value_update(s: Seq<u8>, j: int, c: u8)
    requires
        0 <= j < s.len(),
        48 <= s[j] <= 57,
        48 <= c <= 57,
    ensures
        decimal_value(s.update(j, c)) + (s[j] - 48) * pow10((s.len() - 1 - j) as nat)
            == decimal_value(s) + (c - 48) * pow10((s.len() - 1 - j) as nat),
{
    let pre = s.subrange(0, j);
    let post = s.subrange(j + 1, s.len() as int);
    let t = s.update(j, c);
    assert(s =~= pre.push(s[j]) + post);
    assert(t =~= pre.push(c) + post);
    lemma_value_concat(pre.push(s[j]), post);
    lemma_value_concat(pre.push(c), post);
    assert(pre.push(s[j]).drop_last() =~= pre);
    assert(pre.push(c).drop_last() =~= pre);
    let v = decimal_value(pre);
    let w = decimal_value(post);
    let p = pow10(post.len());
    let a = (s[j] - 48) as nat;
    let b = (c - 48) as nat;
    assert(decimal_value(pre.push(s[j])) == v * 10 + a);
    assert(decimal_value(pre.push(c)) == v * 10 + b);
    assert(post.len() == s.len() - 1 - j);
    assert((v * 10 + b) * p + w + a * p == (v * 10 + a) * p + w + b * p) by (nonlinear_arith);
}

} // verus!
