//! How a number is spelled: the canonical decimal spelling both languages share, and the
//! dyadic spelling the surface language adds.
use vstd::prelude::*;
use crate::utf::push_char;
use vstd::slice::{slice_subrange, slice_to_vec};
use vstd::string::StringSliceAdditionalSpecFns;

verus! {

/// Whether a number token spells an integer or a float.
#[derive(Debug, Clone, Copy, PartialEq, Eq, Structural)]
pub enum NumberKind {
    Integer,
    Float,
}

pub open spec fn is_digit_byte(b: u8) -> bool {
    48 <= b <= 57
}

/// The first position at or after `at` that holds no decimal digit.
pub open spec fn digits_end(t: Seq<u8>, at: int) -> int
    decreases t.len() - at,
{
    if 0 <= at < t.len() && is_digit_byte(t[at]) {
        digits_end(t, at + 1)
    } else {
        at
    }
}

/// Where an unsigned integer spelled without a leading zero, starting at `at`, ends.
pub open spec fn uint_end(t: Seq<u8>, at: int) -> Option<int> {
    if 0 <= at < t.len() && t[at] == 48u8 {
        Some(at + 1)
    } else if 0 <= at < t.len() && 49 <= t[at] <= 57 {
        Some(digits_end(t, at + 1))
    } else {
        None
    }
}

/// Where the fraction that may follow at `at` ends, if it is well formed.
pub open spec fn fraction_end(t: Seq<u8>, at: int) -> Option<int> {
    if 0 <= at < t.len() && t[at] == 46u8 {
        let end = digits_end(t, at + 1);
        if end > at + 1 { Some(end) } else { None }
    } else {
        Some(at)
    }
}

/// Where the exponent that may follow at `at` ends, if it is well formed.
pub open spec fn exponent_end(t: Seq<u8>, at: int) -> Option<int> {
    if 0 <= at < t.len() && t[at] == 101u8 {
        let sign = if at + 1 < t.len() && t[at + 1] == 45u8 { at + 2 } else { at + 1 };
        uint_end(t, sign)
    } else {
        Some(at)
    }
}

/// The kind of number `t` spells in the canonical form, where a number is an optional `-`, an
/// integer without a leading zero, an optional fraction with at least one digit, and an
/// optional `e` exponent whose sign may only be `-`; `None` where `t` spells none.
pub open spec fn canonical_kind(t: Seq<u8>) -> Option<NumberKind> {
    let start = if t.len() > 0 && t[0] == 45u8 { 1int } else { 0int };
    match uint_end(t, start) {
        None => None,
        Some(whole) => match fraction_end(t, whole) {
            None => None,
            Some(fraction) => match exponent_end(t, fraction) {
                None => None,
                Some(end) => if end == t.len() {
                    if fraction == whole && end == fraction {
                        Some(NumberKind::Integer)
                    } else {
                        Some(NumberKind::Float)
                    }
                } else {
                    None
                },
            },
        },
    }
}

/// Scans the decimal digits of `t` from `at`.
fn scan_digits(t: &[u8], at: usize) -> (end: usize)
    requires
        at <= t@.len(),
    ensures
        end == digits_end(t@, at as int),
        at <= end <= t@.len(),
    decreases t@.len() - at,
{
    if at < t.len() && 48 <= t[at] && t[at] <= 57 {
        scan_digits(t, at + 1)
    } else {
        at
    }
}

fn scan_uint(t: &[u8], at: usize) -> (end: Option<usize>)
    requires
        at <= t@.len(),
    ensures
        end matches Some(e) ==> uint_end(t@, at as int) == Some(e as int) && e <= t@.len(),
        end is None ==> uint_end(t@, at as int) is None,
{
    if at < t.len() && t[at] == 48 {
        Some(at + 1)
    } else if at < t.len() && 49 <= t[at] && t[at] <= 57 {
        Some(scan_digits(t, at + 1))
    } else {
        None
    }
}

/// The kind of number `t` spells in the canonical form.
pub fn canonical_number(t: &[u8]) -> (kind: Option<NumberKind>)
    ensures
        kind == canonical_kind(t@),
{
    let start: usize = if t.len() > 0 && t[0] == 45 { 1 } else { 0 };
    let whole = match scan_uint(t, start) {
        None => return None,
        Some(e) => e,
    };
    let fraction = if whole < t.len() && t[whole] == 46 {
        let end = scan_digits(t, whole + 1);
        if end > whole + 1 {
            end
        } else {
            return None;
        }
    } else {
        whole
    };
    let end = if fraction < t.len() && t[fraction] == 101 {
        let sign = if fraction + 1 < t.len() && t[fraction + 1] == 45 { fraction + 2 } else { fraction + 1 };
        match scan_uint(t, sign) {
            None => return None,
            Some(e) => e,
        }
    } else {
        fraction
    };
    if end != t.len() {
        return None;
    }
    if fraction == whole && end == fraction {
        Some(NumberKind::Integer)
    } else {
        Some(NumberKind::Float)
    }
}

/// How many bits a digit after the marker `b` carries: `b` one, `q` two, `o` three, `x` four.
pub open spec fn marker_bits(b: u8) -> nat {
    if b == 98u8 { 1 } else if b == 113u8 { 2 } else if b == 111u8 { 3 } else if b == 120u8 { 4 } else { 0 }
}

/// The value of `b` as a digit of a base of `bits` bits, a hex digit being upper case.
pub open spec fn digit_value(b: u8, bits: nat) -> Option<nat> {
    if bits == 4 && 65 <= b <= 70 {
        Some((b - 55) as nat)
    } else if 1 <= bits <= 4 && 48 <= b <= 57 && ((b - 48) as nat) < pow2(bits) {
        Some((b - 48) as nat)
    } else {
        None
    }
}

pub open spec fn pow2(bits: nat) -> nat
    decreases bits,
{
    if bits == 0 { 1 } else { 2 * pow2((bits - 1) as nat) }
}

/// Reads dyadic digits from `at` on: each marker sets how many bits the digits after it
/// carry, and each digit shifts the value left by that many bits before it is added.  A
/// marker must follow the leading `0` or a digit; the spelling must end in a digit.
pub open spec fn dyadic_from(t: Seq<u8>, at: int, bits: nat, value: nat, digit: bool) -> Option<nat>
    decreases t.len() - at,
{
    if at < 0 || at >= t.len() {
        if bits > 0 && digit { Some(value) } else { None }
    } else if marker_bits(t[at]) > 0 && (bits == 0 || digit) {
        dyadic_from(t, at + 1, marker_bits(t[at]), value, false)
    } else if bits > 0 && digit_value(t[at], bits) is Some {
        dyadic_from(t, at + 1, bits, value * pow2(bits) + digit_value(t[at], bits).unwrap(), true)
    } else {
        None
    }
}

/// Whether `t` opens with a `-`.
pub open spec fn negative(t: Seq<u8>) -> bool {
    t.len() > 0 && t[0] == 45u8
}

/// The magnitude a dyadic literal spells: an optional `-`, a `0`, and then runs of digits
/// each opened by a marker; `None` where `t` spells no dyadic literal.
pub open spec fn dyadic_magnitude(t: Seq<u8>) -> Option<nat> {
    let start = if negative(t) { 1int } else { 0int };
    if start < t.len() && t[start] == 48u8 {
        dyadic_from(t, start + 1, 0, 0, false)
    } else {
        None
    }
}

fn bits_of(b: u8) -> (bits: u32)
    ensures
        bits == marker_bits(b),
{
    if b == 98 { 1 } else if b == 113 { 2 } else if b == 111 { 3 } else if b == 120 { 4 } else { 0 }
}

fn value_of(b: u8, bits: u32) -> (v: Option<u32>)
    requires
        bits <= 4,
    ensures
        v matches Some(d) ==> digit_value(b, bits as nat) == Some(d as nat) && d < 16,
        v is None ==> digit_value(b, bits as nat) is None,
{
    proof {
        assert(pow2(0) == 1);
        assert(pow2(1) == 2);
        assert(pow2(2) == 4);
        assert(pow2(3) == 8);
        assert(pow2(4) == 16);
    }
    if bits == 4 && 65 <= b && b <= 70 {
        Some((b - 55) as u32)
    } else if 1 <= bits && bits <= 4 && 48 <= b && b <= 57 && ((b - 48) as u32) < (1u32 << bits) {
        proof {
            assert(1u32 << 1u32 == 2) by (bit_vector);
            assert(1u32 << 2u32 == 4) by (bit_vector);
            assert(1u32 << 3u32 == 8) by (bit_vector);
            assert(1u32 << 4u32 == 16) by (bit_vector);
        }
        Some((b - 48) as u32)
    } else {
        proof {
            assert(1u32 << 1u32 == 2) by (bit_vector);
            assert(1u32 << 2u32 == 4) by (bit_vector);
            assert(1u32 << 3u32 == 8) by (bit_vector);
            assert(1u32 << 4u32 == 16) by (bit_vector);
        }
        None
    }
}

/// Whether `t` spells a dyadic literal, whatever its width.
pub fn is_dyadic(t: &[u8]) -> (found: bool)
    ensures
        found == (dyadic_magnitude(t@) is Some),
{
    let start: usize = if t.len() > 0 && t[0] == 45 { 1 } else { 0 };
    if !(start < t.len() && t[start] == 48) {
        return false;
    }
    let mut at = start + 1;
    let mut bits: u32 = 0;
    let mut digit = false;
    let ghost mut value: nat = 0;
    while at < t.len()
        invariant
            start + 1 <= at <= t@.len(),
            bits <= 4,
            dyadic_magnitude(t@) == dyadic_from(t@, at as int, bits as nat, value, digit),
        decreases t@.len() - at,
    {
        let b = t[at];
        let m = bits_of(b);
        if m > 0 && (bits == 0 || digit) {
            bits = m;
            digit = false;
        } else if bits > 0 {
            match value_of(b, bits) {
                Some(d) => {
                    proof { value = value * pow2(bits as nat) + d as nat; }
                    digit = true;
                },
                None => return false,
            }
        } else {
            return false;
        }
        at = at + 1;
    }
    bits > 0 && digit
}

/// The magnitude of a dyadic literal, or `None` where it is past 128 bits.
pub fn dyadic_value(t: &[u8]) -> (magnitude: Option<u128>)
    requires
        dyadic_magnitude(t@) is Some,
    ensures
        magnitude matches Some(v) ==> dyadic_magnitude(t@) == Some(v as nat),
        magnitude is None ==> dyadic_magnitude(t@).unwrap() > u128::MAX,
{
    let start: usize = if t.len() > 0 && t[0] == 45 { 1 } else { 0 };
    let mut at = start + 1;
    let mut bits: u32 = 0;
    let mut digit = false;
    let mut value: u128 = 0;
    let ghost mut exact: nat = 0;
    let mut wide = false;
    while at < t.len()
        invariant
            start + 1 <= at <= t@.len(),
            bits <= 4,
            dyadic_magnitude(t@) == dyadic_from(t@, at as int, bits as nat, exact, digit),
            dyadic_magnitude(t@) is Some,
            !wide ==> value as nat == exact,
            wide ==> exact > u128::MAX,
        decreases t@.len() - at,
    {
        let b = t[at];
        let m = bits_of(b);
        if m > 0 && (bits == 0 || digit) {
            bits = m;
            digit = false;
        } else {
            let d = match value_of(b, bits) {
                Some(d) => d,
                None => {
                    proof {
                        assert(b == t@[at as int]);
                        lemma_dyadic_none(t@, at as int, bits as nat, exact, digit);
                        assert(dyadic_magnitude(t@) is None);
                    }
                    return None;
                },
            };
            proof {
                lemma_pow2_bound(bits as nat);
                lemma_pow2_positive(bits as nat);
                assert(exact * pow2(bits as nat) >= exact) by (nonlinear_arith)
                    requires pow2(bits as nat) >= 1;
                exact = exact * pow2(bits as nat) + d as nat;
            }
            if !wide {
                let shift: u128 = 1u128 << bits;
                proof {
                    assert(bits <= 4);
                    lemma_shift_is_pow2(bits);
                }
                let room: u128 = u128::MAX - d as u128;
                let limit: u128 = room / shift;
                if value > limit {
                    wide = true;
                    proof {
                        let (v, s, l, r) = (value as int, shift as int, limit as int, room as int);
                        assert(v * s + d > u128::MAX) by (nonlinear_arith)
                            requires v > l, l == r / s, s > 0, r == u128::MAX - d, 0 <= d < 16;
                    }
                } else {
                    proof {
                        let (v, s, l, r) = (value as int, shift as int, limit as int, room as int);
                        assert(v * s + d <= u128::MAX) by (nonlinear_arith)
                            requires 0 <= v <= l, l == r / s, s > 0, r == u128::MAX - d, 0 <= d < 16;
                    }
                    value = value * shift + d as u128;
                }
            }
            digit = true;
        }
        at = at + 1;
    }
    if wide {
        None
    } else {
        Some(value)
    }
}

proof fn lemma_dyadic_none(t: Seq<u8>, at: int, bits: nat, value: nat, digit: bool)
    requires
        0 <= at < t.len(),
        !(marker_bits(t[at]) > 0 && (bits == 0 || digit)),
        digit_value(t[at], bits) is None,
    ensures
        dyadic_from(t, at, bits, value, digit) is None,
{
}

proof fn lemma_pow2_bound(bits: nat)
    requires
        bits <= 4,
    ensures
        pow2(bits) <= 16,
{
    assert(pow2(0) == 1);
    assert(pow2(1) == 2);
    assert(pow2(2) == 4);
    assert(pow2(3) == 8);
    assert(pow2(4) == 16);
}

proof fn lemma_pow2_positive(bits: nat)
    ensures
        pow2(bits) >= 1,
    decreases bits,
{
    if bits > 0 {
        lemma_pow2_positive((bits - 1) as nat);
    }
}

proof fn lemma_shift_is_pow2(bits: u32)
    requires
        bits <= 4,
    ensures
        (1u128 << bits) as nat == pow2(bits as nat),
        (1u128 << bits) >= 1,
{
    assert(pow2(0) == 1);
    assert(pow2(1) == 2);
    assert(pow2(2) == 4);
    assert(pow2(3) == 8);
    assert(pow2(4) == 16);
    if bits == 0 {
        assert(1u128 << 0u32 == 1) by (bit_vector);
    } else if bits == 1 {
        assert(1u128 << 1u32 == 2) by (bit_vector);
    } else if bits == 2 {
        assert(1u128 << 2u32 == 4) by (bit_vector);
    } else if bits == 3 {
        assert(1u128 << 3u32 == 8) by (bit_vector);
    } else {
        assert(1u128 << 4u32 == 16) by (bit_vector);
    }
}

/// The decimal digits of `n`, most significant first, with no leading zero.
pub open spec fn decimal(n: nat) -> Seq<u8>
    decreases n,
{
    if n < 10 {
        seq![(48 + n) as u8]
    } else {
        decimal(n / 10).push((48 + n % 10) as u8)
    }
}

/// Spells `n` in decimal.
pub fn decimal_digits(n: u128) -> (digits: Vec<u8>)
    ensures
        digits@ == decimal(n as nat),
    decreases n,
{
    if n < 10 {
        let mut digits = Vec::new();
        digits.push((48 + n) as u8);
        digits
    } else {
        let mut digits = decimal_digits(n / 10);
        digits.push((48 + n % 10) as u8);
        digits
    }
}

/// The characters of ASCII bytes.
pub open spec fn ascii_chars(bytes: Seq<u8>) -> Seq<char> {
    bytes.map_values(|b: u8| b as char)
}

/// A string of the ASCII bytes `bytes[start..end]`.
pub fn ascii_text(bytes: &[u8], start: usize, end: usize) -> (text: String)
    requires
        start <= end <= bytes@.len(),
        forall|i: int| start <= i < end ==> bytes@[i] < 128,
    ensures
        text@ == ascii_chars(bytes@.subrange(start as int, end as int)),
{
    let mut text = String::new();
    let mut at = start;
    while at < end
        invariant
            start <= at <= end <= bytes@.len(),
            forall|i: int| start <= i < end ==> bytes@[i] < 128,
            text@ == ascii_chars(bytes@.subrange(start as int, at as int)),
        decreases end - at,
    {
        let c = bytes[at] as char;
        push_char(&mut text, c);
        at = at + 1;
        assert(ascii_chars(bytes@.subrange(start as int, at as int)) =~= ascii_chars(bytes@.subrange(start as int, (at - 1) as int)).push(c));
    }
    text
}

} // verus!

verus! {

/// The spelling an integer settles on: `-0` is `0`, and any other is itself.
pub open spec fn settled(t: Seq<u8>) -> Seq<u8> {
    if t == seq![45u8, 48u8] { seq![48u8] } else { t }
}

/// The value of a run of decimal digit bytes.
pub open spec fn decimal_value(digits: Seq<u8>) -> nat
    decreases digits.len(),
{
    if digits.len() == 0 { 0 } else { decimal_value(digits.drop_last()) * 10 + (digits.last() - 48) as nat }
}

/// The value a canonical integer spelling stands for.
pub open spec fn integer_value(t: Seq<u8>) -> int {
    if negative(t) { -(decimal_value(t.subrange(1, t.len() as int)) as int) } else { decimal_value(t) as int }
}

/// An integer, kept as the canonical decimal spelling it was written in, of any width.
#[derive(Debug, PartialEq, Eq)]
pub struct Integer {
    digits: Vec<u8>,
    text: String,
}

impl View for Integer {
    type V = Seq<u8>;

    closed spec fn view(&self) -> Seq<u8> {
        self.digits@
    }
}

impl Clone for Integer {
    fn clone(&self) -> (copy: Self)
        ensures
            copy@ == self@,
    {
        proof { use_type_invariant(self); }
        let digits = self.digits.clone();
        assert(digits@ =~= self.digits@);
        Integer { digits, text: self.text.clone() }
    }
}

impl Integer {
    /// An integer holds a canonical integer spelling other than `-0`, and its text is that
    /// spelling.
    #[verifier::type_invariant]
    closed spec fn well_spelled(self) -> bool {
        &&& canonical_kind(self.digits@) == Some(NumberKind::Integer)
        &&& self.digits@ != seq![45u8, 48u8]
        &&& self.text@ == ascii_chars(self.digits@)
    }

    pub open spec fn spelling_ok(t: Seq<u8>) -> bool {
        canonical_kind(t) == Some(NumberKind::Integer)
    }

    /// The integer spelled by `bytes[start..end]`, which spells one canonically.
    pub(crate) fn spelled(bytes: &[u8], start: usize, end: usize) -> (integer: Integer)
        requires
            start <= end <= bytes@.len(),
            canonical_kind(bytes@.subrange(start as int, end as int)) == Some(NumberKind::Integer),
        ensures
            integer@ == settled(bytes@.subrange(start as int, end as int)),
    {
        let ghost t = bytes@.subrange(start as int, end as int);
        if end - start == 2 && bytes[start] == 45 && bytes[start + 1] == 48 {
            assert(t =~= seq![45u8, 48u8]);
            let mut digits = Vec::new();
            digits.push(48u8);
            let mut text = String::new();
            push_char(&mut text, '0');
            proof {
                assert(digits@ =~= seq![48u8]);
                assert(ascii_chars(digits@) =~= seq!['0']);
                assert(canonical_kind(seq![48u8]) == Some(NumberKind::Integer));
            }
            return Integer { digits, text };
        }
        let piece = slice_subrange(bytes, start, end);
        let digits = slice_to_vec(piece);
        assert(forall|i: int| start <= i < end ==> bytes@[i] < 128) by {
            assert forall|i: int| start <= i < end implies bytes@[i] < 128 by {
                assert(t[i - start] == bytes@[i]);
                if !(i == start && negative(t)) {
                    lemma_integer_digits(t, i - start);
                }
            }
        }
        let text = ascii_text(bytes, start, end);
        assert(t != seq![45u8, 48u8]) by {
            if t =~= seq![45u8, 48u8] {
                assert(bytes@[start as int] == 45 && bytes@[start + 1] == 48);
            }
        }
        Integer { digits, text }
    }

    /// The integer `-magnitude` or `magnitude`, spelled in decimal.
    pub(crate) fn of_magnitude(minus: bool, magnitude: u128) -> (integer: Integer)
        ensures
            integer@ == (if minus && magnitude != 0 { seq![45u8] + decimal(magnitude as nat) } else { decimal(magnitude as nat) }),
    {
        let mut digits: Vec<u8> = Vec::new();
        if minus && magnitude != 0 {
            digits.push(45u8);
        }
        let mut body = decimal_digits(magnitude);
        let ghost head = digits@;
        digits.append(&mut body);
        proof {
            lemma_decimal_canonical(magnitude as nat);
            let t = digits@;
            if minus && magnitude != 0 {
                assert(t[0] == 45u8);
                assert(t.subrange(1, t.len() as int) =~= decimal(magnitude as nat));
                lemma_canonical_after_sign(t);
            } else {
                assert(t =~= decimal(magnitude as nat));
            }
            if t == seq![45u8, 48u8] {
                assert(t[1] == 48u8);
                assert(decimal(magnitude as nat)[0] == 48u8);
                lemma_decimal_zero(magnitude as nat);
            }
        }
        let text = ascii_text(digits.as_slice(), 0, digits.len());
        assert(digits@.subrange(0, digits@.len() as int) =~= digits@);
        Integer { digits, text }
    }

    /// The integer spelled by `text`, if `text` spells one in the canonical form.
    pub fn parse(text: &str) -> (integer: Option<Integer>)
        ensures
            integer is Some <==> canonical_kind(text.spec_bytes()) == Some(NumberKind::Integer),
            integer matches Some(i) ==> i@ == settled(text.spec_bytes()),
    {
        let bytes = text.as_bytes();
        match canonical_number(bytes) {
            Some(NumberKind::Integer) => {
                assert(bytes@.subrange(0, bytes@.len() as int) =~= bytes@);
                Some(Integer::spelled(bytes, 0, bytes.len()))
            },
            _ => None,
        }
    }

    /// The decimal spelling.
    pub fn as_str(&self) -> (text: &str)
        ensures
            text@ == ascii_chars(self@),
    {
        proof { use_type_invariant(self); }
        self.text.as_str()
    }

    /// The magnitude, where it fits 128 bits.
    fn magnitude(&self) -> (m: Option<u128>)
        ensures
            m matches Some(v) ==> v as nat == decimal_value(self.unsigned()),
            m is None ==> decimal_value(self.unsigned()) > u128::MAX,
    {
        proof { use_type_invariant(self); }
        let start: usize = if self.digits.len() > 0 && self.digits[0] == 45 { 1 } else { 0 };
        let mut at = start;
        let mut value: u128 = 0;
        while at < self.digits.len()
            invariant
                start <= at <= self.digits@.len(),
                start == (if negative(self.digits@) { 1int } else { 0int }),
                value as nat == decimal_value(self.digits@.subrange(start as int, at as int)),
                canonical_kind(self.digits@) == Some(NumberKind::Integer),
            decreases self.digits@.len() - at,
        {
            let ghost before = self.digits@.subrange(start as int, at as int);
            assert(self.digits@.subrange(start as int, at + 1).drop_last() =~= before);
            proof { lemma_integer_digits(self.digits@, at as int); }
            let d = (self.digits[at] - 48) as u128;
            if value > (u128::MAX - d) / 10 {
                proof {
                    let (v, l) = (value as int, ((u128::MAX - d) / 10) as int);
                    assert(v * 10 + d > u128::MAX) by (nonlinear_arith)
                        requires v > l, l == (u128::MAX - d) / 10, 0 <= d <= 9;
                    let whole = self.digits@.subrange(start as int, self.digits@.len() as int);
                    assert forall|i: int| 0 <= i < whole.len() implies 48 <= #[trigger] whole[i] <= 57 by {
                        lemma_integer_digits(self.digits@, i + start);
                    }
                    lemma_decimal_monotone(whole, at - start + 1);
                    assert(whole.subrange(0, at - start + 1) =~= self.digits@.subrange(start as int, at + 1));
                    assert(whole =~= self.unsigned());
                }
                return None;
            }
            proof {
                let (v, l) = (value as int, ((u128::MAX - d) / 10) as int);
                assert(v * 10 + d <= u128::MAX) by (nonlinear_arith)
                    requires 0 <= v <= l, l == (u128::MAX - d) / 10, 0 <= d <= 9;
            }
            value = value * 10 + d;
            at = at + 1;
        }
        assert(self.digits@.subrange(start as int, at as int) =~= self.unsigned());
        Some(value)
    }

    /// The digits without the sign.
    pub closed spec fn unsigned(&self) -> Seq<u8> {
        if negative(self.digits@) { self.digits@.subrange(1, self.digits@.len() as int) } else { self.digits@ }
    }

    /// The value, where it fits an `i64`.
    pub fn to_i64(&self) -> (v: Option<i64>)
        ensures
            v matches Some(x) ==> x as int == integer_value(self@),
            v is None ==> !(i64::MIN <= integer_value(self@) <= i64::MAX),
    {
        proof { use_type_invariant(self); }
        let minus = self.digits.len() > 0 && self.digits[0] == 45;
        match self.magnitude() {
            None => None,
            Some(m) => {
                if minus {
                    if m <= 9223372036854775808u128 {
                        Some((0i128 - m as i128) as i64)
                    } else {
                        None
                    }
                } else if m <= 9223372036854775807u128 {
                    Some(m as i64)
                } else {
                    None
                }
            },
        }
    }

    /// The value, where it fits an `i128`.
    pub fn to_i128(&self) -> (v: Option<i128>)
        ensures
            v matches Some(x) ==> x as int == integer_value(self@),
            v is None ==> !(i128::MIN <= integer_value(self@) <= i128::MAX),
    {
        proof { use_type_invariant(self); }
        let minus = self.digits.len() > 0 && self.digits[0] == 45;
        match self.magnitude() {
            None => None,
            Some(m) => {
                if minus {
                    if m < 170141183460469231731687303715884105728u128 {
                        Some(0i128 - m as i128)
                    } else if m == 170141183460469231731687303715884105728u128 {
                        Some(i128::MIN)
                    } else {
                        None
                    }
                } else if m <= 170141183460469231731687303715884105727u128 {
                    Some(m as i128)
                } else {
                    None
                }
            },
        }
    }
}

proof fn lemma_digits_end(t: Seq<u8>, at: int)
    requires
        0 <= at <= t.len(),
    ensures
        at <= digits_end(t, at) <= t.len(),
        forall|i: int| at <= i < digits_end(t, at) ==> is_digit_byte(#[trigger] t[i]),
        digits_end(t, at) < t.len() ==> !is_digit_byte(t[digits_end(t, at)]),
    decreases t.len() - at,
{
    if at < t.len() && is_digit_byte(t[at]) {
        lemma_digits_end(t, at + 1);
    }
}

proof fn lemma_digits_to_end(t: Seq<u8>, at: int)
    requires
        0 <= at <= t.len(),
        forall|i: int| at <= i < t.len() ==> is_digit_byte(#[trigger] t[i]),
    ensures
        digits_end(t, at) == t.len(),
    decreases t.len() - at,
{
    if at < t.len() {
        lemma_digits_to_end(t, at + 1);
    }
}

proof fn lemma_decimal_canonical(n: nat)
    ensures
        canonical_kind(decimal(n)) == Some(NumberKind::Integer),
        decimal(n).len() >= 1,
        forall|i: int| 0 <= i < decimal(n).len() ==> 48 <= #[trigger] decimal(n)[i] <= 57,
        decimal(n)[0] == 48u8 ==> n == 0,
    decreases n,
{
    let t = decimal(n);
    if n >= 10 {
        lemma_decimal_canonical(n / 10);
        let h = decimal(n / 10);
        assert(t == h.push((48 + n % 10) as u8));
        assert forall|i: int| 0 <= i < t.len() implies 48 <= #[trigger] t[i] <= 57 by {
            if i < h.len() {
                assert(t[i] == h[i]);
            }
        }
        assert(t[0] == h[0]);
    }
    assert(forall|i: int| 0 <= i < t.len() ==> is_digit_byte(#[trigger] t[i]));
    if t[0] == 48u8 {
        assert(n == 0);
        assert(t.len() == 1);
        assert(uint_end(t, 0) == Some(1int));
    } else {
        lemma_digits_to_end(t, 1);
        assert(uint_end(t, 0) == Some(t.len() as int));
    }
}

proof fn lemma_decimal_zero(n: nat)
    requires
        decimal(n)[0] == 48u8,
    ensures
        n == 0,
{
    lemma_decimal_canonical(n);
}

/// The unsigned integer of a canonical integer spelling runs to its end.
proof fn lemma_integer_whole(t: Seq<u8>)
    requires
        canonical_kind(t) == Some(NumberKind::Integer),
    ensures
        uint_end(t, if negative(t) { 1int } else { 0int }) == Some(t.len() as int),
{
    let start = if negative(t) { 1int } else { 0int };
    let whole = uint_end(t, start).unwrap();
    assert(fraction_end(t, whole) == Some(whole));
    assert(exponent_end(t, whole) == Some(whole));
}

proof fn lemma_canonical_after_sign(t: Seq<u8>)
    requires
        t.len() >= 2,
        t[0] == 45u8,
        48 <= t[1] <= 57,
        canonical_kind(t.subrange(1, t.len() as int)) == Some(NumberKind::Integer),
    ensures
        canonical_kind(t) == Some(NumberKind::Integer),
{
    let u = t.subrange(1, t.len() as int);
    lemma_integer_whole(u);
    assert(u[0] == t[1]);
    assert(uint_end(u, 0) == Some(u.len() as int));
    if u[0] == 48u8 {
        assert(t[1] == 48u8);
        assert(uint_end(t, 1) == Some(2int));
    } else {
        lemma_digits_end(u, 1);
        assert forall|i: int| 2 <= i < t.len() implies is_digit_byte(#[trigger] t[i]) by {
            assert(t[i] == u[i - 1]);
        }
        lemma_digits_to_end(t, 2);
        assert(t[1] == u[0]);
        assert(uint_end(t, 1) == Some(t.len() as int));
    }
}

proof fn lemma_integer_digits(t: Seq<u8>, at: int)
    requires
        canonical_kind(t) == Some(NumberKind::Integer),
        (if negative(t) { 1int } else { 0int }) <= at < t.len(),
    ensures
        48 <= t[at] <= 57,
{
    let start = if negative(t) { 1int } else { 0int };
    lemma_integer_whole(t);
    if t[start] != 48u8 {
        lemma_digits_end(t, start + 1);
    }
}

proof fn lemma_decimal_monotone(digits: Seq<u8>, k: int)
    requires
        0 <= k <= digits.len(),
        forall|i: int| 0 <= i < digits.len() ==> 48 <= #[trigger] digits[i] <= 57,
    ensures
        decimal_value(digits.subrange(0, k)) <= decimal_value(digits),
    decreases digits.len(),
{
    if k == digits.len() {
        assert(digits.subrange(0, k) =~= digits);
    } else {
        let d = digits.drop_last();
        assert forall|i: int| 0 <= i < d.len() implies 48 <= #[trigger] d[i] <= 57 by {
            assert(d[i] == digits[i]);
        }
        lemma_decimal_monotone(d, k);
        assert(d.subrange(0, k) =~= digits.subrange(0, k));
    }
}

} // verus!

verus! {

/// The decimal digits of 2^1024 - 2^970: the smallest magnitude a double rounds to infinity.
pub open spec fn limit() -> Seq<u8> {
    seq![49u8, 55u8, 57u8, 55u8, 54u8, 57u8, 51u8, 49u8, 51u8, 52u8, 56u8, 54u8, 50u8, 51u8, 49u8, 53u8, 56u8, 48u8, 55u8, 57u8, 51u8, 55u8, 50u8, 56u8, 57u8, 55u8, 49u8, 52u8, 48u8, 53u8, 51u8, 48u8, 51u8, 52u8, 49u8, 53u8, 48u8, 55u8, 57u8, 57u8, 51u8, 52u8, 49u8, 51u8, 50u8, 55u8, 49u8, 48u8, 48u8, 51u8, 55u8, 56u8, 50u8, 54u8, 57u8, 51u8, 54u8, 49u8, 55u8, 51u8, 55u8, 55u8, 56u8, 57u8, 56u8, 48u8, 52u8, 52u8, 52u8, 57u8, 54u8, 56u8, 50u8, 57u8, 50u8, 55u8, 54u8, 52u8, 55u8, 53u8, 48u8, 57u8, 52u8, 54u8, 54u8, 52u8, 57u8, 48u8, 49u8, 55u8, 57u8, 55u8, 55u8, 53u8, 56u8, 55u8, 50u8, 48u8, 55u8, 48u8, 57u8, 54u8, 51u8, 51u8, 48u8, 50u8, 56u8, 54u8, 52u8, 49u8, 54u8, 54u8, 57u8, 50u8, 56u8, 56u8, 55u8, 57u8, 49u8, 48u8, 57u8, 52u8, 54u8, 53u8, 53u8, 53u8, 53u8, 52u8, 55u8, 56u8, 53u8, 49u8, 57u8, 52u8, 48u8, 52u8, 48u8, 50u8, 54u8, 51u8, 48u8, 54u8, 53u8, 55u8, 52u8, 56u8, 56u8, 54u8, 55u8, 49u8, 53u8, 48u8, 53u8, 56u8, 50u8, 48u8, 54u8, 56u8, 49u8, 57u8, 48u8, 56u8, 57u8, 48u8, 50u8, 48u8, 48u8, 48u8, 55u8, 48u8, 56u8, 51u8, 56u8, 51u8, 54u8, 55u8, 54u8, 50u8, 55u8, 51u8, 56u8, 53u8, 52u8, 56u8, 52u8, 53u8, 56u8, 49u8, 55u8, 55u8, 49u8, 49u8, 53u8, 51u8, 49u8, 55u8, 54u8, 52u8, 52u8, 55u8, 53u8, 55u8, 51u8, 48u8, 50u8, 55u8, 48u8, 48u8, 54u8, 57u8, 56u8, 53u8, 53u8, 53u8, 55u8, 49u8, 51u8, 54u8, 54u8, 57u8, 53u8, 57u8, 54u8, 50u8, 50u8, 56u8, 52u8, 50u8, 57u8, 49u8, 52u8, 56u8, 49u8, 57u8, 56u8, 54u8, 48u8, 56u8, 51u8, 52u8, 57u8, 51u8, 54u8, 52u8, 55u8, 53u8, 50u8, 57u8, 50u8, 55u8, 49u8, 57u8, 48u8, 55u8, 52u8, 49u8, 54u8, 56u8, 52u8, 52u8, 52u8, 51u8, 54u8, 53u8, 53u8, 49u8, 48u8, 55u8, 48u8, 52u8, 51u8, 52u8, 50u8, 55u8, 49u8, 49u8, 53u8, 53u8, 57u8, 54u8, 57u8, 57u8, 53u8, 48u8, 56u8, 48u8, 57u8, 51u8, 48u8, 52u8, 50u8, 56u8, 56u8, 48u8, 49u8, 55u8, 55u8, 57u8, 48u8, 52u8, 49u8, 55u8, 52u8, 52u8, 57u8, 55u8, 55u8, 57u8, 50u8]
}

/// The digits of the limit, as bytes.
fn limit_digits() -> (digits: Vec<u8>)
    ensures
        digits@ == limit(),
{
    let digits: Vec<u8> = vec![49u8, 55u8, 57u8, 55u8, 54u8, 57u8, 51u8, 49u8, 51u8, 52u8, 56u8, 54u8, 50u8, 51u8, 49u8, 53u8, 56u8, 48u8, 55u8, 57u8, 51u8, 55u8, 50u8, 56u8, 57u8, 55u8, 49u8, 52u8, 48u8, 53u8, 51u8, 48u8, 51u8, 52u8, 49u8, 53u8, 48u8, 55u8, 57u8, 57u8, 51u8, 52u8, 49u8, 51u8, 50u8, 55u8, 49u8, 48u8, 48u8, 51u8, 55u8, 56u8, 50u8, 54u8, 57u8, 51u8, 54u8, 49u8, 55u8, 51u8, 55u8, 55u8, 56u8, 57u8, 56u8, 48u8, 52u8, 52u8, 52u8, 57u8, 54u8, 56u8, 50u8, 57u8, 50u8, 55u8, 54u8, 52u8, 55u8, 53u8, 48u8, 57u8, 52u8, 54u8, 54u8, 52u8, 57u8, 48u8, 49u8, 55u8, 57u8, 55u8, 55u8, 53u8, 56u8, 55u8, 50u8, 48u8, 55u8, 48u8, 57u8, 54u8, 51u8, 51u8, 48u8, 50u8, 56u8, 54u8, 52u8, 49u8, 54u8, 54u8, 57u8, 50u8, 56u8, 56u8, 55u8, 57u8, 49u8, 48u8, 57u8, 52u8, 54u8, 53u8, 53u8, 53u8, 53u8, 52u8, 55u8, 56u8, 53u8, 49u8, 57u8, 52u8, 48u8, 52u8, 48u8, 50u8, 54u8, 51u8, 48u8, 54u8, 53u8, 55u8, 52u8, 56u8, 56u8, 54u8, 55u8, 49u8, 53u8, 48u8, 53u8, 56u8, 50u8, 48u8, 54u8, 56u8, 49u8, 57u8, 48u8, 56u8, 57u8, 48u8, 50u8, 48u8, 48u8, 48u8, 55u8, 48u8, 56u8, 51u8, 56u8, 51u8, 54u8, 55u8, 54u8, 50u8, 55u8, 51u8, 56u8, 53u8, 52u8, 56u8, 52u8, 53u8, 56u8, 49u8, 55u8, 55u8, 49u8, 49u8, 53u8, 51u8, 49u8, 55u8, 54u8, 52u8, 52u8, 55u8, 53u8, 55u8, 51u8, 48u8, 50u8, 55u8, 48u8, 48u8, 54u8, 57u8, 56u8, 53u8, 53u8, 53u8, 55u8, 49u8, 51u8, 54u8, 54u8, 57u8, 53u8, 57u8, 54u8, 50u8, 50u8, 56u8, 52u8, 50u8, 57u8, 49u8, 52u8, 56u8, 49u8, 57u8, 56u8, 54u8, 48u8, 56u8, 51u8, 52u8, 57u8, 51u8, 54u8, 52u8, 55u8, 53u8, 50u8, 57u8, 50u8, 55u8, 49u8, 57u8, 48u8, 55u8, 52u8, 49u8, 54u8, 56u8, 52u8, 52u8, 52u8, 51u8, 54u8, 53u8, 53u8, 49u8, 48u8, 55u8, 48u8, 52u8, 51u8, 52u8, 50u8, 55u8, 49u8, 49u8, 53u8, 53u8, 57u8, 54u8, 57u8, 57u8, 53u8, 48u8, 56u8, 48u8, 57u8, 51u8, 48u8, 52u8, 50u8, 56u8, 56u8, 48u8, 49u8, 55u8, 55u8, 57u8, 48u8, 52u8, 49u8, 55u8, 52u8, 52u8, 57u8, 55u8, 55u8, 57u8, 50u8];
    assert(digits@ =~= limit());
    digits
}

} // verus!

verus! {

/// The parts of a canonical float spelling: the integer digits, the fraction digits, whether
/// the exponent is negative, and the exponent digits.
pub open spec fn float_parts(t: Seq<u8>) -> (Seq<u8>, Seq<u8>, bool, Seq<u8>) {
    let s0 = if negative(t) { 1int } else { 0int };
    let w = uint_end(t, s0).unwrap();
    let f = fraction_end(t, w).unwrap();
    let fraction = if f > w { t.subrange(w + 1, f) } else { Seq::empty() };
    let has_exponent = f < t.len();
    let minus = has_exponent && f + 1 < t.len() && t[f + 1] == 45u8;
    let exponent = if has_exponent { t.subrange(if minus { f + 2 } else { f + 1 }, t.len() as int) } else { Seq::empty() };
    (t.subrange(s0, w), fraction, minus, exponent)
}

/// The first position at or after `at` that holds no `0`.
pub open spec fn zeros_end(m: Seq<u8>, at: int) -> int
    decreases m.len() - at,
{
    if 0 <= at < m.len() && m[at] == 48u8 { zeros_end(m, at + 1) } else { at }
}

/// The first position before `k` at which `a` and `b` differ.
pub open spec fn first_diff(a: Seq<u8>, b: Seq<u8>, at: int, k: int) -> Option<int>
    decreases k - at,
{
    if at >= k { None } else if a[at] != b[at] { Some(at) } else { first_diff(a, b, at + 1, k) }
}

/// Whether significant digits `d`, read as a 309-digit integer, fall below the limit.
pub open spec fn below_limit(d: Seq<u8>) -> bool {
    let k = if d.len() < 309 { d.len() as int } else { 309int };
    match first_diff(d, limit(), 0, k) {
        Some(i) => d[i] < limit()[i],
        None => d.len() < 309,
    }
}

/// Whether a canonical float spelling stands for a value a double holds: its significant
/// digits `d`, scaled by its exponent, have fewer than 309 integer digits, or exactly 309
/// that fall below the digits of 2^1024 - 2^970, the least magnitude that rounds to infinity.
pub open spec fn float_in_range(t: Seq<u8>) -> bool {
    let (whole, fraction, minus, exponent) = float_parts(t);
    let m = whole + fraction;
    let d = m.subrange(zeros_end(m, 0), m.len() as int);
    let e = (if minus { -(decimal_value(exponent) as int) } else { decimal_value(exponent) as int }) - fraction.len();
    d.len() == 0 || d.len() + e < 309 || (d.len() + e == 309 && below_limit(d))
}

/// The significant digits of a canonical float spelling: its integer and fraction digits,
/// leading zeros dropped. Its value is the value of these digits times ten to
/// `float_exponent`.
pub open spec fn float_digits(t: Seq<u8>) -> Seq<u8> {
    let m = float_parts(t).0 + float_parts(t).1;
    m.subrange(zeros_end(m, 0), m.len() as int)
}

/// The power of ten that scales the significant digits of a canonical float spelling to its
/// value: its exponent, less the number of its fraction digits.
pub open spec fn float_exponent(t: Seq<u8>) -> int {
    let (whole, fraction, minus, exponent) = float_parts(t);
    (if minus { -(decimal_value(exponent) as int) } else { decimal_value(exponent) as int }) - fraction.len()
}

/// Whether a canonical float spelling stands for a value too small for a double to hold as
/// anything but zero: its significant digits, scaled, reach no place at or above 10^-324.
pub open spec fn float_vanishes(t: Seq<u8>) -> bool {
    float_digits(t).len() + float_exponent(t) <= -324
}

proof fn lemma_zeros_end(m: Seq<u8>, at: int)
    requires
        0 <= at <= m.len(),
    ensures
        at <= zeros_end(m, at) <= m.len(),
        zeros_end(m, at) < m.len() ==> m[zeros_end(m, at)] != 48u8,
    decreases m.len() - at,
{
    if at < m.len() && m[at] == 48u8 {
        lemma_zeros_end(m, at + 1);
    }
}

/// Reads decimal digits, stopping at `cap` once the value passes it.
fn capped_value(digits: &[u8], start: usize, end: usize, cap: u128) -> (v: u128)
    requires
        start <= end <= digits@.len(),
        cap < u128::MAX / 16,
        forall|i: int| start <= i < end ==> 48 <= #[trigger] digits@[i] <= 57,
    ensures
        v <= cap ==> v as nat == decimal_value(digits@.subrange(start as int, end as int)),
        v > cap ==> decimal_value(digits@.subrange(start as int, end as int)) > cap,
{
    let mut at = start;
    let mut value: u128 = 0;
    while at < end
        invariant
            start <= at <= end <= digits@.len(),
            cap < u128::MAX / 16,
            forall|i: int| start <= i < end ==> 48 <= #[trigger] digits@[i] <= 57,
            value <= cap ==> value as nat == decimal_value(digits@.subrange(start as int, at as int)),
            value > cap ==> decimal_value(digits@.subrange(start as int, at as int)) > cap && value == cap + 1,
        decreases end - at,
    {
        let ghost before = digits@.subrange(start as int, at as int);
        assert(digits@.subrange(start as int, at + 1).drop_last() =~= before);
        let d = (digits[at] - 48) as u128;
        if value <= cap {
            let next = value * 10 + d;
            if next > cap {
                value = cap + 1;
            } else {
                value = next;
            }
        } else {
            proof {
                let x = decimal_value(before);
                assert(x * 10 + d > cap) by (nonlinear_arith) requires x > cap, d >= 0;
            }
        }
        at = at + 1;
    }
    value
}

/// Whether the significant digits `m[z..]` fall below the limit.
fn digits_below_limit(m: &Vec<u8>, z: usize) -> (below: bool)
    requires
        z < m@.len(),
    ensures
        below == below_limit(m@.subrange(z as int, m@.len() as int)),
{
    let ghost d = m@.subrange(z as int, m@.len() as int);
    let p = m.len() - z;
    let bound = limit_digits();
    let k: usize = if p < 309 { p } else { 309 };
    let mut i: usize = 0;
    while i < k
        invariant
            i <= k <= 309,
            k <= p,
            k == (if d.len() < 309 { d.len() as int } else { 309int }),
            z + p == m@.len(),
            m@.len() == m.len(),
            bound@ == limit(),
            d == m@.subrange(z as int, m@.len() as int),
            first_diff(d, limit(), 0, k as int) == first_diff(d, limit(), i as int, k as int),
        decreases k - i,
    {
        assert(d[i as int] == m@[z + i]);
        if m[z + i] != bound[i] {
            return m[z + i] < bound[i];
        }
        i = i + 1;
    }
    p < 309
}

/// The integer and fraction digits of a canonical float spelling, one after the other, with
/// how many the fraction has and where the exponent's digits start, if it has one.
fn float_mantissa(t: &[u8]) -> (parts: (Vec<u8>, usize, bool, bool, usize))
    requires
        canonical_kind(t@) == Some(NumberKind::Float),
    ensures
        ({
            let (whole, fraction, minus, exponent) = float_parts(t@);
            &&& parts.0@ == whole + fraction
            &&& parts.1 == fraction.len()
            &&& parts.3 == minus
            &&& parts.4 <= t@.len()
            &&& (parts.2 ==> exponent == t@.subrange(parts.4 as int, t@.len() as int))
            &&& (!parts.2 ==> exponent.len() == 0 && !minus)
            &&& forall|i: int| parts.4 <= i < t@.len() ==> 48 <= #[trigger] t@[i] <= 57
        }),
{
    let n = t.len();
    let s0: usize = if n > 0 && t[0] == 45 { 1 } else { 0 };
    let w = match scan_uint(t, s0) { Some(w) => w, None => { assert(false); 0 } };
    let f = if w < n && t[w] == 46 { scan_digits(t, w + 1) } else { w };
    let has_exponent = f < n;
    let minus = has_exponent && f + 1 < n && t[f + 1] == 45;
    let xs: usize = if has_exponent { if minus { f + 2 } else { f + 1 } } else { n };
    proof {
        if w < n && t@[w as int] == 46u8 { lemma_digits_end(t@, w + 1); }
        assert(fraction_end(t@, w as int) == Some(f as int));
        if has_exponent {
            assert(exponent_end(t@, f as int) is Some);
            assert(uint_end(t@, xs as int) == Some(n as int));
            if t@[xs as int] != 48u8 { lemma_digits_end(t@, xs + 1); }
        }
    }
    let mut m: Vec<u8> = Vec::new();
    let mut i = s0;
    while i < w
        invariant
            s0 <= i <= w <= n,
            n == t@.len(),
            m@ == t@.subrange(s0 as int, i as int),
        decreases w - i,
    {
        m.push(t[i]);
        i = i + 1;
        assert(m@ =~= t@.subrange(s0 as int, i as int));
    }
    let frac_len: usize = if f > w { f - (w + 1) } else { 0 };
    if f > w {
        let mut j = w + 1;
        while j < f
            invariant
                w + 1 <= j <= f <= n,
                n == t@.len(),
                m@ == t@.subrange(s0 as int, w as int) + t@.subrange(w + 1, j as int),
            decreases f - j,
        {
            m.push(t[j]);
            j = j + 1;
            assert(m@ =~= t@.subrange(s0 as int, w as int) + t@.subrange(w + 1, j as int));
        }
    } else {
        assert(m@ =~= t@.subrange(s0 as int, w as int) + Seq::<u8>::empty());
    }
    (m, frac_len, has_exponent, minus, xs)
}

/// Whether the canonical float spelling `t` stands for a finite double.
pub fn float_fits(t: &[u8]) -> (fits: bool)
    requires
        canonical_kind(t@) == Some(NumberKind::Float),
    ensures
        fits == float_in_range(t@),
{
    let n = t.len();
    let (m, frac_len, has_exponent, minus, xs) = float_mantissa(t);
    let ghost (whole, fraction, eminus, exponent) = float_parts(t@);
    proof { lemma_zeros_end(m@, 0); }
    let mut z: usize = 0;
    while z < m.len() && m[z] == 48
        invariant
            z <= m@.len(),
            zeros_end(m@, z as int) == zeros_end(m@, 0),
        decreases m@.len() - z,
    {
        z = z + 1;
    }
    let p = m.len() - z;
    let ghost d = m@.subrange(z as int, m@.len() as int);
    if p == 0 {
        return true;
    }
    let cap: u128 = 100000000000000000000;
    let x = if has_exponent { capped_value(t, xs, n, cap) } else { 0 };
    let ghost e = (if eminus { -(decimal_value(exponent) as int) } else { decimal_value(exponent) as int }) - fraction.len();
    if x > cap {
        if minus {
            assert(d.len() + e < 309);
            return true;
        } else {
            assert(d.len() + e > 309);
            return false;
        }
    }
    let scale: i128 = if minus { 0i128 - x as i128 } else { x as i128 };
    let magnitude: i128 = p as i128 + scale - frac_len as i128;
    assert(magnitude == d.len() + e);
    if magnitude < 309 {
        return true;
    }
    if magnitude > 309 {
        return false;
    }
    digits_below_limit(&m, z)
}

} // verus!

verus! {

/// A float, kept as the canonical spelling it was written in; its value is finite.
#[derive(Debug, PartialEq, Eq)]
pub struct Float {
    digits: Vec<u8>,
    text: String,
}

impl View for Float {
    type V = Seq<u8>;

    closed spec fn view(&self) -> Seq<u8> {
        self.digits@
    }
}

impl Clone for Float {
    fn clone(&self) -> (copy: Self)
        ensures
            copy@ == self@,
    {
        proof { use_type_invariant(self); }
        let digits = self.digits.clone();
        assert(digits@ =~= self.digits@);
        Float { digits, text: self.text.clone() }
    }
}

impl Float {
    /// A float holds a canonical float spelling of a finite value, and its text is that
    /// spelling.
    #[verifier::type_invariant]
    closed spec fn well_spelled(self) -> bool {
        &&& canonical_kind(self.digits@) == Some(NumberKind::Float)
        &&& float_in_range(self.digits@)
        &&& self.text@ == ascii_chars(self.digits@)
    }

    /// The float spelled by `bytes[start..end]`, which spells one canonically, or `None`
    /// where its value is past what a double holds.
    pub(crate) fn spelled(bytes: &[u8], start: usize, end: usize) -> (float: Option<Float>)
        requires
            start <= end <= bytes@.len(),
            canonical_kind(bytes@.subrange(start as int, end as int)) == Some(NumberKind::Float),
        ensures
            float is Some <==> float_in_range(bytes@.subrange(start as int, end as int)),
            float matches Some(f) ==> f@ == bytes@.subrange(start as int, end as int),
    {
        let piece = slice_subrange(bytes, start, end);
        let digits = slice_to_vec(piece);
        if !float_fits(piece) {
            return None;
        }
        proof { lemma_float_ascii(digits@); }
        assert forall|i: int| start <= i < end implies bytes@[i] < 128 by {
            assert(digits@[i - start] == bytes@[i]);
        }
        let text = ascii_text(bytes, start, end);
        Some(Float { digits, text })
    }

    /// The spelling.
    pub fn as_str(&self) -> (text: &str)
        ensures
            text@ == ascii_chars(self@),
    {
        proof { use_type_invariant(self); }
        self.text.as_str()
    }
}

/// A canonical number spelling is made of ASCII bytes.
proof fn lemma_float_ascii(t: Seq<u8>)
    requires
        canonical_kind(t) is Some,
    ensures
        forall|i: int| 0 <= i < t.len() ==> t[i] < 128,
{
    let s0 = if negative(t) { 1int } else { 0int };
    let w = uint_end(t, s0).unwrap();
    if t[s0] != 48u8 { lemma_digits_end(t, s0 + 1); }
    let f = fraction_end(t, w).unwrap();
    if w < t.len() && t[w] == 46u8 { lemma_digits_end(t, w + 1); }
    if f < t.len() {
        let sign = if f + 1 < t.len() && t[f + 1] == 45u8 { f + 2 } else { f + 1 };
        let x = uint_end(t, sign).unwrap();
        if t[sign] != 48u8 { lemma_digits_end(t, sign + 1); }
    }
    assert forall|i: int| 0 <= i < t.len() implies t[i] < 128 by {
        if i < s0 {
        } else if i < w {
        } else if i < f {
        } else {
        }
    }
}

} // verus!

verus! {

/// A string of `bytes[start..end]`, each byte read as the character with its code.
pub fn ascii_text_lossy(bytes: &[u8], start: usize, end: usize) -> (text: String)
    requires
        start <= end <= bytes@.len(),
    ensures
        text@ == ascii_chars(bytes@.subrange(start as int, end as int)),
{
    let mut text = String::new();
    let mut at = start;
    while at < end
        invariant
            start <= at <= end <= bytes@.len(),
            text@ == ascii_chars(bytes@.subrange(start as int, at as int)),
        decreases end - at,
    {
        let c = bytes[at] as char;
        push_char(&mut text, c);
        at = at + 1;
        assert(ascii_chars(bytes@.subrange(start as int, at as int)) =~= ascii_chars(bytes@.subrange(start as int, (at - 1) as int)).push(c));
    }
    text
}

} // verus!

verus! {

/// Where the zeros that end `d` begin.
pub open spec fn zeros_start(d: Seq<u8>, end: int) -> int
    decreases end,
{
    if 0 < end <= d.len() && d[end - 1] == 48u8 { zeros_start(d, end - 1) } else { end }
}

proof fn lemma_zeros_start(d: Seq<u8>, end: int)
    requires
        0 <= end <= d.len(),
    ensures
        0 <= zeros_start(d, end) <= end,
        zeros_start(d, end) > 0 ==> d[zeros_start(d, end) - 1] != 48u8,
        forall|i: int| zeros_start(d, end) <= i < end ==> d[i] == 48u8,
    decreases end,
{
    if 0 < end && d[end - 1] == 48u8 {
        lemma_zeros_start(d, end - 1);
    }
}

/// What a canonical float spelling stands for, up to its sign: its significant digits, with
/// neither leading nor trailing zeros, and the power of ten that scales them; or nothing
/// where the value is below ten to the -324th, which a double holds only as zero.
pub open spec fn float_key(t: Seq<u8>) -> Option<(Seq<u8>, int)> {
    let (whole, fraction, minus, exponent) = float_parts(t);
    let m = whole + fraction;
    let d = m.subrange(zeros_end(m, 0), m.len() as int);
    let e = (if minus { -(decimal_value(exponent) as int) } else { decimal_value(exponent) as int }) - fraction.len();
    let s = zeros_start(d, d.len() as int);
    if d.len() == 0 || d.len() + e <= -324 {
        None
    } else {
        Some((d.subrange(0, s), e + (d.len() - s)))
    }
}

/// Whether two canonical float spellings stand for the same number: the same sign, and
/// the same significant digits at the same scale, every value too small for a double being
/// that sign's zero.
pub open spec fn same_float(a: Seq<u8>, b: Seq<u8>) -> bool {
    negative(a) == negative(b) && float_key(a) == float_key(b)
}

/// Computes the key of a canonical float spelling whose value a double holds.
fn float_key_of(t: &[u8]) -> (key: Option<(Vec<u8>, i128)>)
    requires
        canonical_kind(t@) == Some(NumberKind::Float),
        float_in_range(t@),
    ensures
        match key {
            Some((digits, scale)) => float_key(t@) == Some((digits@, scale as int)),
            None => float_key(t@) is None,
        },
{
    let n = t.len();
    let (m, frac_len, has_exponent, minus, xs) = float_mantissa(t);
    let ghost (whole, fraction, eminus, exponent) = float_parts(t@);
    proof { lemma_zeros_end(m@, 0); }
    let mut z: usize = 0;
    while z < m.len() && m[z] == 48
        invariant
            z <= m@.len(),
            zeros_end(m@, z as int) == zeros_end(m@, 0),
        decreases m@.len() - z,
    {
        z = z + 1;
    }
    let p = m.len() - z;
    let ghost d = m@.subrange(z as int, m@.len() as int);
    if p == 0 {
        return None;
    }
    let cap: u128 = 100000000000000000000;
    let x = if has_exponent { capped_value(t, xs, n, cap) } else { 0 };
    let ghost e = (if eminus { -(decimal_value(exponent) as int) } else { decimal_value(exponent) as int }) - fraction.len();
    if x > cap {
        if minus {
            assert(d.len() + e <= -324);
            return None;
        } else {
            assert(d.len() + e > 309);
            assert(false);
            return None;
        }
    }
    let scale: i128 = if minus { 0i128 - x as i128 } else { x as i128 };
    let magnitude: i128 = p as i128 + scale - frac_len as i128;
    assert(magnitude == d.len() + e);
    if magnitude <= -324 {
        return None;
    }
    proof { lemma_zeros_start(d, d.len() as int); }
    let mut s = m.len();
    while s > z && m[s - 1] == 48
        invariant
            z <= s <= m@.len(),
            d == m@.subrange(z as int, m@.len() as int),
            zeros_start(d, (s - z) as int) == zeros_start(d, d.len() as int),
        decreases s,
    {
        assert(d[s - z - 1] == m@[s - 1]);
        s = s - 1;
    }
    proof {
        if s > z {
            assert(d[s - z - 1] == m@[s - 1]);
        }
    }
    let mut digits: Vec<u8> = Vec::new();
    let mut i = z;
    while i < s
        invariant
            z <= i <= s <= m@.len(),
            digits@ == m@.subrange(z as int, i as int),
        decreases s - i,
    {
        digits.push(m[i]);
        i = i + 1;
        assert(digits@ =~= m@.subrange(z as int, i as int));
    }
    assert(digits@ =~= d.subrange(0, (s - z) as int));
    let shift: i128 = scale - frac_len as i128 + (m.len() - s) as i128;
    Some((digits, shift))
}

impl Float {
    /// Whether two floats are the same number.
    #[verifier::loop_isolation(false)]
    pub fn same_number(&self, other: &Float) -> (same: bool)
        ensures
            same == same_float(self@, other@),
    {
        proof {
            use_type_invariant(self);
            use_type_invariant(other);
        }
        let a = self.digits.as_slice();
        let b = other.digits.as_slice();
        let minus_a = a.len() > 0 && a[0] == 45;
        let minus_b = b.len() > 0 && b[0] == 45;
        if minus_a != minus_b {
            return false;
        }
        let ka = float_key_of(a);
        let kb = float_key_of(b);
        match (ka, kb) {
            (None, None) => true,
            (Some((da, sa)), Some((db, sb))) => {
                if sa != sb || da.len() != db.len() {
                    assert(da@.len() != db@.len() ==> da@ != db@);
                    assert((da@, sa as int) != (db@, sb as int));
                    return false;
                }
                let mut i: usize = 0;
                while i < da.len()
                    invariant
                        i <= da@.len(),
                        da@.len() == db@.len(),
                        forall|j: int| 0 <= j < i ==> da@[j] == db@[j],
                    decreases da@.len() - i,
                {
                    if da[i] != db[i] {
                        assert(da@ != db@);
                        assert((da@, sa as int) != (db@, sb as int));
                        return false;
                    }
                    i = i + 1;
                }
                assert(da@ =~= db@);
                true
            },
            _ => false,
        }
    }
}

} // verus!

verus! {

/// Whether two byte strings are the same.
pub fn same_bytes(a: &[u8], b: &[u8]) -> (same: bool)
    ensures
        same == (a@ == b@),
{
    if a.len() != b.len() {
        return false;
    }
    let mut i: usize = 0;
    while i < a.len()
        invariant
            i <= a@.len(),
            a@.len() == b@.len(),
            forall|j: int| 0 <= j < i ==> a@[j] == b@[j],
        decreases a@.len() - i,
    {
        if a[i] != b[i] {
            return false;
        }
        i = i + 1;
    }
    assert(a@ =~= b@);
    true
}

impl Integer {
    /// Whether two integers are spelled alike, which for canonical spellings is whether they
    /// are the same number.
    pub fn same_spelling(&self, other: &Integer) -> (same: bool)
        ensures
            same == (self@ == other@),
    {
        same_bytes(self.digits.as_slice(), other.digits.as_slice())
    }
}

} // verus!

verus! {

/// Every float spelling is the same number as itself.
pub proof fn lemma_same_float_reflexive(t: Seq<u8>)
    ensures
        same_float(t, t),
{
}

} // verus!

verus! {

/// Digits that start with a nonzero one stand for a positive number.
proof fn lemma_leading_digit_positive(d: Seq<u8>)
    requires
        d.len() > 0,
        49 <= d[0] <= 57,
        forall|i: int| 0 <= i < d.len() ==> 48 <= #[trigger] d[i] <= 57,
    ensures
        decimal_value(d) > 0,
    decreases d.len(),
{
    if d.len() > 1 {
        lemma_leading_digit_positive(d.drop_last());
    }
}

impl Integer {
    /// Whether the integer is written with a minus sign, which it is exactly when it is
    /// below zero.
    pub fn is_negative(&self) -> (minus: bool)
        ensures
            minus == negative(self@),
            minus ==> integer_value(self@) < 0,
            !minus ==> integer_value(self@) >= 0,
    {
        proof {
            use_type_invariant(self);
            let t = self@;
            if negative(t) {
                let rest = t.subrange(1, t.len() as int);
                lemma_integer_whole(t);
                if t[1] == 48u8 {
                    assert(t =~= seq![45u8, 48u8]);
                } else {
                    assert forall|i: int| 0 <= i < rest.len() implies 48 <= #[trigger] rest[i] <= 57 by {
                        lemma_integer_digits(t, i + 1);
                    }
                    lemma_leading_digit_positive(rest);
                }
            }
        }
        self.digits.len() > 0 && self.digits[0] == 45
    }
}

} // verus!

verus! {

impl Float {
    /// The float as significant digits scaled by a power of ten: its sign, its digits with
    /// no leading zero, and the exponent `e` such that the value is those digits times ten to
    /// the `e`. A value too small for a double to hold as anything but zero has no digits.
    pub fn scaled(&self) -> (parts: (bool, Vec<u8>, i128))
        ensures
            parts.0 == negative(self@),
            forall|i: int| 0 <= i < parts.1@.len() ==> 48 <= #[trigger] parts.1@[i] <= 57,
            parts.1@.len() > 0 ==> parts.1@[0] != 48u8,
            parts.1@.len() > 0 ==> -324 < parts.1@.len() + parts.2 <= 309,
            parts.1@.len() == 0 ==> parts.2 == 0,
            parts.1@.len() > 0 <==> (float_digits(self@).len() > 0 && !float_vanishes(self@)),
            parts.1@.len() > 0 ==> parts.1@ == float_digits(self@) && parts.2 == float_exponent(self@),
            forall|i: int| 0 <= i < float_digits(self@).len() ==> 48 <= #[trigger] float_digits(self@)[i] <= 57,
    {
        proof { use_type_invariant(self); }
        let t = self.digits.as_slice();
        let n = t.len();
        let minus_sign = n > 0 && t[0] == 45;
        let (m, frac_len, has_exponent, minus, xs) = float_mantissa(t);
        let ghost (whole, fraction, eminus, exponent) = float_parts(t@);
        proof {
            lemma_zeros_end(m@, 0);
            lemma_float_ascii(t@);
            assert forall|i: int| 0 <= i < m@.len() implies 48 <= #[trigger] m@[i] <= 57 by {
                lemma_float_mantissa_digits(t@, i);
            }
        }
        let mut z: usize = 0;
        while z < m.len() && m[z] == 48
            invariant
                z <= m@.len(),
                zeros_end(m@, z as int) == zeros_end(m@, 0),
            decreases m@.len() - z,
        {
            z = z + 1;
        }
        let p = m.len() - z;
        proof {
            assert(zeros_end(m@, z as int) == z);
            assert(float_digits(t@) == m@.subrange(z as int, m@.len() as int));
            assert forall|i: int| 0 <= i < float_digits(t@).len() implies 48 <= #[trigger] float_digits(t@)[i] <= 57 by {
                assert(float_digits(t@)[i] == m@[z + i]);
            }
        }
        if p == 0 {
            return (minus_sign, Vec::new(), 0);
        }
        let cap: u128 = 100000000000000000000;
        let x = if has_exponent { capped_value(t, xs, n, cap) } else { 0 };
        let ghost d = m@.subrange(z as int, m@.len() as int);
        let ghost e = (if eminus { -(decimal_value(exponent) as int) } else { decimal_value(exponent) as int }) - fraction.len();
        assert(float_in_range(t@));
        if x > cap {
            if minus {
                return (minus_sign, Vec::new(), 0);
            } else {
                assert(d.len() + e > 309);
                assert(false);
                return (minus_sign, Vec::new(), 0);
            }
        }
        let scale: i128 = if minus { 0i128 - x as i128 } else { x as i128 };
        let e_exec: i128 = scale - frac_len as i128;
        if p as i128 + e_exec <= -324 {
            return (minus_sign, Vec::new(), 0);
        }
        assert(p + e_exec == d.len() + e);
        let mut digits: Vec<u8> = Vec::new();
        let mut i = z;
        while i < m.len()
            invariant
                z <= i <= m@.len(),
                digits@ == m@.subrange(z as int, i as int),
                forall|k: int| 0 <= k < m@.len() ==> 48 <= #[trigger] m@[k] <= 57,
            decreases m@.len() - i,
        {
            digits.push(m[i]);
            i = i + 1;
            assert(digits@ =~= m@.subrange(z as int, i as int));
        }
        (minus_sign, digits, e_exec)
    }
}

/// Every byte of the mantissa of a canonical float spelling is a digit.
proof fn lemma_float_mantissa_digits(t: Seq<u8>, i: int)
    requires
        canonical_kind(t) == Some(NumberKind::Float),
        0 <= i < (float_parts(t).0 + float_parts(t).1).len(),
    ensures
        48 <= (float_parts(t).0 + float_parts(t).1)[i] <= 57,
{
    let s0 = if negative(t) { 1int } else { 0int };
    let w = uint_end(t, s0).unwrap();
    if t[s0] != 48u8 { lemma_digits_end(t, s0 + 1); }
    let f = fraction_end(t, w).unwrap();
    if w < t.len() && t[w] == 46u8 { lemma_digits_end(t, w + 1); }
    let (whole, fraction, minus, exponent) = float_parts(t);
    if i < whole.len() {
        assert(whole[i] == t[s0 + i]);
    } else {
        assert(fraction[i - whole.len()] == t[w + 1 + i - whole.len()]);
    }
}

} // verus!
