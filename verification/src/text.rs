//! The text a hole hands over: a value written out the way its specifier asks.
use vstd::prelude::*;
use crate::eval::ErrorKind;
use crate::names::{chars_of, is_digit};
use crate::decimal::{all_digits, lemma_pow10_grows, lemma_value_bound, lemma_value_concat, lemma_value_digit, lemma_value_update, lemma_value_zero, pow10};
use crate::number::{decimal_value, float_digits, float_exponent, float_parts, float_vanishes, integer_value, negative, zeros_end, Float, Integer};
use crate::specifier::{Align, Notation, Spec};
use crate::utf::push_char;
use crate::value::Value;

verus! {

/// A string holding the characters of `s`.
pub fn owned(s: &str) -> (o: String)
    ensures
        o@ == s@,
{
    s.to_owned()
}

/// Appends the characters of `more`.
pub fn append(text: &mut String, more: &str)
    ensures
        final(text)@ == old(text)@ + more@,
{
    let chars = chars_of(more);
    let mut i: usize = 0;
    while i < chars.len()
        invariant
            i <= chars@.len(),
            chars@ == more@,
            text@ == old(text)@ + more@.subrange(0, i as int),
        decreases chars@.len() - i,
    {
        push_char(text, chars[i]);
        i = i + 1;
        assert(more@.subrange(0, i as int) == more@.subrange(0, i - 1).push(chars@[i - 1]));
    }
    assert(more@.subrange(0, chars@.len() as int) == more@);
}

/// Appends the characters of `more`.
pub(crate) fn append_chars(text: &mut String, more: &Vec<char>)
    ensures
        final(text)@ == old(text)@ + more@,
{
    let mut i: usize = 0;
    while i < more.len()
        invariant
            i <= more@.len(),
            text@ == old(text)@ + more@.subrange(0, i as int),
        decreases more@.len() - i,
    {
        push_char(text, more[i]);
        i = i + 1;
        assert(more@.subrange(0, i as int) == more@.subrange(0, i - 1).push(more@[i - 1]));
    }
    assert(more@.subrange(0, more@.len() as int) == more@);
}

/// `count` copies of a character.
pub open spec fn repeat(c: char, count: nat) -> Seq<char> {
    Seq::new(count, |i: int| c)
}

/// A run of `count` copies of a character.
pub fn run(character: char, count: usize) -> (text: String)
    ensures
        text@ == repeat(character, count as nat),
{
    let mut text = String::new();
    let mut i: usize = 0;
    while i < count
        invariant
            i <= count,
            text@ == repeat(character, i as nat),
        decreases count - i,
    {
        push_char(&mut text, character);
        i = i + 1;
        assert(text@ =~= repeat(character, i as nat));
    }
    text
}

/// A body with a `+` before it when a sign is wanted and it has none.
pub open spec fn signed_text(body: Seq<char>, wanted: bool) -> Seq<char> {
    if wanted && !(body.len() > 0 && body[0] == '-') { seq!['+'] + body } else { body }
}

/// Puts a `+` before a body that is wanted signed and is not negative.
pub fn signed(body: String, wanted: bool) -> (text: String)
    ensures
        text@ == signed_text(body@, wanted),
{
    let chars = chars_of(body.as_str());
    if wanted && !(chars.len() > 0 && chars[0] == '-') {
        let mut text = String::new();
        push_char(&mut text, '+');
        append(&mut text, body.as_str());
        assert(text@ =~= seq!['+'] + body@);
        return text;
    }
    body
}

/// How many characters a zero-padded body keeps before its zeros: its sign, and a radix
/// prefix when it has one.
pub open spec fn lead_of(body: Seq<char>, prefixed: bool) -> int {
    (if body.len() > 0 && (body[0] == '+' || body[0] == '-') { 1int } else { 0int }) + (if prefixed { 2int } else { 0int })
}

pub fn digits(body: &str, prefixed: bool) -> (at: usize)
    ensures
        at == lead_of(body@, prefixed),
{
    let chars = chars_of(body);
    let sign: usize = if chars.len() > 0 && (chars[0] == '+' || chars[0] == '-') { 1 } else { 0 };
    sign + if prefixed { 2 } else { 0 }
}

/// A body padded to a specifier's width: with zeros after its sign and prefix, or with its
/// fill where its alignment puts it, a number aligning right and anything else left.
pub open spec fn padded(body: Seq<char>, spec: Spec, numeric: bool) -> Seq<char> {
    match spec.width {
        None => body,
        Some(width) => if width < body.len() {
            body
        } else {
            let missing = (width - body.len()) as nat;
            if spec.zeroed {
                let at = if lead_of(body, spec.prefixed) <= body.len() { lead_of(body, spec.prefixed) } else { body.len() as int };
                body.subrange(0, at) + repeat('0', missing) + body.subrange(at, body.len() as int)
            } else {
                let fill = match spec.fill { Some(c) => c, None => ' ' };
                let align = match spec.align { Some(a) => a, None => if numeric { Align::Right } else { Align::Left } };
                match align {
                    Align::Left => body + repeat(fill, missing),
                    Align::Right => repeat(fill, missing) + body,
                    Align::Centre => repeat(fill, missing / 2) + body + repeat(fill, (missing - missing / 2) as nat),
                }
            }
        },
    }
}

/// Pads a body to the width its specifier asks for.
pub fn pad(body: String, spec: &Spec, numeric: bool) -> (text: String)
    ensures
        text@ == padded(body@, *spec, numeric),
{
    let width = match spec.width {
        None => return body,
        Some(width) => width,
    };
    let chars = chars_of(body.as_str());
    if width < chars.len() {
        return body;
    }
    let missing = width - chars.len();
    if spec.zeroed {
        let lead = digits(body.as_str(), spec.prefixed);
        let at = if lead <= chars.len() { lead } else { chars.len() };
        let mut text = String::new();
        let mut i: usize = 0;
        while i < at
            invariant
                i <= at <= chars@.len(),
                chars@ == body@,
                text@ == body@.subrange(0, i as int),
            decreases at - i,
        {
            push_char(&mut text, chars[i]);
            i = i + 1;
            assert(text@ =~= body@.subrange(0, i as int));
        }
        append(&mut text, run('0', missing).as_str());
        let mut k = at;
        let ghost head = text@;
        while k < chars.len()
            invariant
                at <= k <= chars@.len(),
                chars@ == body@,
                text@ == head + body@.subrange(at as int, k as int),
            decreases chars@.len() - k,
        {
            push_char(&mut text, chars[k]);
            k = k + 1;
            assert(text@ =~= head + body@.subrange(at as int, k as int));
        }
        return text;
    }
    let fill = match spec.fill {
        Some(c) => c,
        None => ' ',
    };
    let align = match spec.align {
        Some(a) => a,
        None => if numeric { Align::Right } else { Align::Left },
    };
    let mut text = String::new();
    match align {
        Align::Left => {
            append(&mut text, body.as_str());
            append(&mut text, run(fill, missing).as_str());
        },
        Align::Right => {
            append(&mut text, run(fill, missing).as_str());
            append(&mut text, body.as_str());
        },
        Align::Centre => {
            let before = missing / 2;
            append(&mut text, run(fill, before).as_str());
            append(&mut text, body.as_str());
            append(&mut text, run(fill, missing - before).as_str());
        },
    }
    text
}

/// A string as a hole hands it over: only a width, a fill and an alignment apply to it.
pub fn of_string(text: &str, spec: &Spec) -> (written: Result<String, ErrorKind>)
    ensures
        (spec.precision is Some || spec.notation is Some || spec.sign) ==> written == Err::<String, ErrorKind>(ErrorKind::UnfitSpec),
        !(spec.precision is Some || spec.notation is Some || spec.sign) ==> (written matches Ok(t) && t@ == text@),
{
    if spec.precision.is_some() || spec.notation.is_some() || spec.sign {
        return Err(ErrorKind::UnfitSpec);
    }
    Ok(owned(text))
}

/// The digit for a value below sixteen, in the case asked for.
pub open spec fn digit_char(d: nat, upper: bool) -> char {
    if d < 10 {
        (48 + d) as char
    } else if upper {
        (55 + d) as char
    } else {
        (87 + d) as char
    }
}

/// The digits of a number in a radix, most significant first.
pub open spec fn radix_digits(v: nat, radix: nat, upper: bool) -> Seq<char>
    recommends
        2 <= radix <= 16,
    decreases v,
{
    if radix < 2 || v < radix {
        seq![digit_char(v % 16, upper)]
    } else {
        proof {
            assert(v / radix < v) by (nonlinear_arith) requires radix >= 2, v >= radix;
        }
        radix_digits(v / radix, radix, upper).push(digit_char(v % radix, upper))
    }
}

/// The digit character for a value below the radix.
fn digit(d: u128, upper: bool) -> (c: char)
    requires
        d < 16,
    ensures
        c == digit_char(d as nat, upper),
{
    let b = d as u8;
    if b < 10 {
        (48 + b) as char
    } else if upper {
        (55 + b) as char
    } else {
        (87 + b) as char
    }
}

/// Writes a number in a radix.
pub(crate) fn radix_text(value: u128, radix: u128, upper: bool) -> (text: Vec<char>)
    requires
        2 <= radix <= 16,
    ensures
        text@ == radix_digits(value as nat, radix as nat, upper),
{
    let mut digits: Vec<char> = Vec::new();
    let mut v = value;
    while v >= radix
        invariant
            2 <= radix <= 16,
            radix_digits(value as nat, radix as nat, upper) == radix_digits(v as nat, radix as nat, upper) + digits@,
        decreases v,
    {
        let c = digit(v % radix, upper);
        proof {
            assert(radix_digits(v as nat, radix as nat, upper) == radix_digits((v / radix) as nat, radix as nat, upper).push(c));
            assert(radix_digits((v / radix) as nat, radix as nat, upper).push(c) + digits@
                =~= radix_digits((v / radix) as nat, radix as nat, upper) + (seq![c] + digits@));
        }
        digits.insert(0, c);
        assert(digits@ =~= seq![c] + digits@.subrange(1, digits@.len() as int));
        v = v / radix;
    }
    let c = digit(v, upper);
    proof {
        assert(v % 16 == v);
        assert(radix_digits(v as nat, radix as nat, upper) == seq![c]);
    }
    digits.insert(0, c);
    assert(digits@ =~= radix_digits(value as nat, radix as nat, upper));
    digits
}

/// The radix a notation asks for, with the case of its digits and its prefix.
pub open spec fn radix_of(notation: Notation) -> (nat, bool, Seq<char>) {
    match notation {
        Notation::Binary => (2, false, seq!['0', 'b']),
        Notation::Octal => (8, false, seq!['0', 'o']),
        Notation::LowerHex => (16, false, seq!['0', 'x']),
        Notation::UpperHex => (16, true, seq!['0', 'x']),
        Notation::Exponent => (10, false, Seq::empty()),
    }
}

/// An integer as a hole hands it over: as written, or respelled in a radix when it is not
/// negative and fits in 128 bits.
pub fn of_integer(number: &Integer, spec: &Spec) -> (written: Result<String, ErrorKind>)
    ensures
        spec.precision is Some ==> written == Err::<String, ErrorKind>(ErrorKind::UnfitSpec),
        spec.precision is None && spec.notation is None ==> (written matches Ok(t)
            && t@ == signed_text(crate::number::ascii_chars(number@), spec.sign)),
        spec.precision is None && spec.notation is Some && negative(number@) ==> written == Err::<String, ErrorKind>(ErrorKind::UnfitSpec),
        spec.precision is None && spec.notation is Some && !negative(number@) && integer_value(number@) > i128::MAX
            ==> written == Err::<String, ErrorKind>(ErrorKind::TooWide),
        spec.precision is None && spec.notation == Some(Notation::Exponent) ==> written is Err,
        spec.precision is None && spec.notation == Some(Notation::Exponent) && !negative(number@)
            && integer_value(number@) <= i128::MAX ==> written == Err::<String, ErrorKind>(ErrorKind::UnfitSpec),
        spec.precision is None && !negative(number@) && integer_value(number@) <= i128::MAX ==> match spec.notation {
            Some(n) => n != Notation::Exponent ==> (written matches Ok(t) && t@ == signed_text(
                (if spec.prefixed { radix_of(n).2 } else { Seq::empty() })
                    + radix_digits(integer_value(number@) as nat, radix_of(n).0, radix_of(n).1), spec.sign)),
            None => true,
        },
{
    if spec.precision.is_some() {
        return Err(ErrorKind::UnfitSpec);
    }
    let notation = match spec.notation {
        None => return Ok(signed(owned(number.as_str()), spec.sign)),
        Some(n) => n,
    };
    let minus = number.is_negative();
    let value = match number.to_i128() {
        Some(v) => {
            if v < 0 {
                return Err(ErrorKind::UnfitSpec);
            }
            v
        },
        None => return Err(if minus { ErrorKind::UnfitSpec } else { ErrorKind::TooWide }),
    };
    let (radix, upper, prefix): (u128, bool, Vec<char>) = match notation {
        Notation::Binary => (2, false, vec!['0', 'b']),
        Notation::Octal => (8, false, vec!['0', 'o']),
        Notation::LowerHex => (16, false, vec!['0', 'x']),
        Notation::UpperHex => (16, true, vec!['0', 'x']),
        Notation::Exponent => return Err(ErrorKind::UnfitSpec),
    };
    let digits = radix_text(value as u128, radix, upper);
    let mut body = String::new();
    if spec.prefixed {
        append_chars(&mut body, &prefix);
    }
    append_chars(&mut body, &digits);
    proof {
        if spec.prefixed {
            assert(body@ =~= radix_of(notation).2 + radix_digits(integer_value(number@) as nat, radix_of(notation).0, radix_of(notation).1));
        } else {
            assert(body@ =~= Seq::<char>::empty() + radix_digits(integer_value(number@) as nat, radix_of(notation).0, radix_of(notation).1));
        }
    }
    Ok(signed(body, spec.sign))
}

/// The digits of a number in decimal.
fn decimal_chars(value: u128) -> (text: Vec<char>)
    ensures
        text@ == radix_digits(value as nat, 10, false),
{
    radix_text(value, 10, false)
}

/// Adds one to the last of a run of decimal digits, carrying; a carry out of the first
/// digit puts a `1` before them all.
fn increment(digits: &mut Vec<u8>)
    requires
        forall|i: int| 0 <= i < old(digits)@.len() ==> 48 <= #[trigger] old(digits)@[i] <= 57,
    ensures
        forall|i: int| 0 <= i < final(digits)@.len() ==> 48 <= #[trigger] final(digits)@[i] <= 57,
        final(digits)@.len() == old(digits)@.len() || final(digits)@.len() == old(digits)@.len() + 1,
        final(digits)@.len() > 0,
        decimal_value(final(digits)@) == decimal_value(old(digits)@) + 1,
{
    let ghost start = digits@;
    let ghost len = digits@.len();
    let mut i = digits.len();
    loop
        invariant
            i <= digits@.len(),
            digits@.len() == len == start.len(),
            start == old(digits)@,
            forall|k: int| 0 <= k < digits@.len() ==> 48 <= #[trigger] digits@[k] <= 57,
            forall|k: int| 0 <= k < i ==> #[trigger] digits@[k] == start[k],
            forall|k: int| i <= k < len ==> #[trigger] digits@[k] == 48 && start[k] == 57,
            decimal_value(digits@) + pow10((len - i) as nat) == decimal_value(start) + 1,
        decreases i,
    {
        if i == 0 {
            let ghost before = digits@;
            digits.insert(0, 49);
            proof {
                assert(digits@ =~= seq![49u8] + before);
                lemma_value_concat(seq![49u8], before);
                lemma_value_digit(49u8);
                assert(before.len() == len);
                assert(decimal_value(digits@) == 1 * pow10(len) + decimal_value(before));
            }
            return;
        }
        let d = digits[i - 1];
        let ghost before = digits@;
        proof {
            assert(before[i - 1] == start[i - 1]);
        }
        if d < 57 {
            digits.set(i - 1, d + 1);
            proof {
                lemma_value_update(before, i - 1, (d + 1) as u8);
                assert(digits@ == before.update(i - 1, (d + 1) as u8));
                let pl = pow10((len - i) as nat);
                assert(len - 1 - (i - 1) == len - i);
                assert(((d + 1) as u8 - 48) * pl == (d - 48) * pl + pl) by (nonlinear_arith)
                    requires 48 <= d < 57;
            }
            return;
        }
        digits.set(i - 1, 48);
        proof {
            lemma_value_update(before, i - 1, 48u8);
            assert(digits@ == before.update(i - 1, 48u8));
            let pl = pow10((len - i) as nat);
            assert(len - 1 - (i - 1) == len - i);
            assert((d - 48) * pl == 9 * pl) by (nonlinear_arith)
                requires d == 57;
            assert((48u8 - 48) * pl == 0) by (nonlinear_arith);
            assert(pow10((len - (i - 1)) as nat) == 10 * pow10((len - i) as nat));
        }
        i = i - 1;
    }
}

/// Whether digits rounded off at `keep` round up, half to even: past a half, or at an exact
/// half when the last kept digit is odd.
fn rounds_up(digits: &Vec<u8>, keep: usize, last_odd: bool) -> (up: bool)
    requires
        keep < digits@.len(),
    ensures
        up == (digits@[keep as int] > 53 || (digits@[keep as int] == 53
            && ((exists|i: int| keep < i < digits@.len() && digits@[i] != 48) || last_odd))),
{
    let n = digits.len();
    let first = digits[keep];
    if first > 53 {
        return true;
    }
    if first < 53 {
        return false;
    }
    let mut i = keep + 1;
    while i < n
        invariant
            keep < i <= digits@.len(),
            n == digits@.len(),
            digits@[keep as int] == 53,
            forall|k: int| keep < k < i ==> digits@[k] == 48,
        decreases digits@.len() - i,
    {
        if digits[i] != 48 {
            return true;
        }
        i = i + 1;
    }
    last_odd
}

/// Rounding a run of digits off after `keep` of them, up where the digits dropped reach past
/// half a unit of the last place kept or stand at half with the rounding wanted up, lands
/// within half a unit of that place of the run's value.
proof fn lemma_round_off(digits: Seq<u8>, keep: int, up: bool)
    requires
        all_digits(digits),
        0 <= keep < digits.len(),
        up ==> digits[keep] >= 53,
        !up ==> digits[keep] < 53 || (digits[keep] == 53 && forall|i: int| keep < i < digits.len() ==> digits[i] == 48),
    ensures
        ({
            let u = pow10((digits.len() - keep) as nat);
            let n = decimal_value(digits.subrange(0, keep)) + if up { 1int } else { 0int };
            &&& 2 * n * u <= 2 * decimal_value(digits) + u
            &&& 2 * decimal_value(digits) <= 2 * n * u + u
        }),
{
    let len = digits.len() as int;
    let q = digits.subrange(0, keep);
    let r = digits.subrange(keep, len);
    let rest = digits.subrange(keep + 1, len);
    let x = digits[keep];
    assert(digits =~= q + r);
    assert(r =~= seq![x] + rest);
    lemma_value_concat(q, r);
    lemma_value_concat(seq![x], rest);
    lemma_value_digit(x);
    assert(all_digits(rest)) by {
        assert forall|i: int| 0 <= i < rest.len() implies 48 <= #[trigger] rest[i] <= 57 by {
            assert(rest[i] == digits[keep + 1 + i]);
        }
    }
    lemma_value_bound(rest);
    lemma_value_zero(rest);
    if !up && x == 53 {
        assert forall|i: int| 0 <= i < rest.len() implies #[trigger] rest[i] == 48 by {
            assert(rest[i] == digits[keep + 1 + i]);
        }
    }
    let v = pow10(rest.len());
    let u = pow10(r.len());
    assert(u == 10 * v);
    let qv = decimal_value(q);
    let rv = decimal_value(r);
    let rp = decimal_value(rest);
    let a = (x - 48) as int;
    let av = a * v;
    assert(rv == av + rp);
    assert(0 <= rp < v);
    assert(av <= 9 * v) by (nonlinear_arith) requires 0 <= a <= 9, v >= 1, av == a * v;
    assert(up ==> av >= 5 * v) by (nonlinear_arith) requires up ==> a >= 5, v >= 1, av == a * v;
    assert(a <= 4 ==> av <= 4 * v) by (nonlinear_arith) requires 0 <= a, v >= 1, av == a * v;
    assert(a == 5 ==> av == 5 * v) by (nonlinear_arith) requires av == a * v;
    let n = qv + if up { 1int } else { 0int };
    let nu = n * u;
    let qu = qv * u;
    assert(nu == qu + if up { u as int } else { 0int }) by (nonlinear_arith)
        requires n == qv + if up { 1int } else { 0int }, nu == n * u, qu == qv * u;
    assert(decimal_value(digits) == qu + rv);
    assert(2 * n * u == 2 * nu) by (nonlinear_arith) requires nu == n * u;
    assert(r.len() == digits.len() - keep);
    if up {
        assert(2 * nu <= 2 * decimal_value(digits) + u);
        assert(2 * decimal_value(digits) <= 2 * nu + u);
    } else {
        assert(nu == qu);
        if x < 53 {
            assert(a <= 4);
            assert(2 * rv <= u);
        } else {
            assert(rp == 0);
            assert(a == 5);
            assert(av == 5 * v);
            assert(2 * rv <= u) by (nonlinear_arith)
                requires rv == av + rp, av == 5 * v, rp == 0, u == 10 * v;
        }
        assert(2 * nu <= 2 * decimal_value(digits) + u);
        assert(2 * decimal_value(digits) <= 2 * nu + u);
    }
}

/// Digits that fall wholly below the last place kept round to nothing.
proof fn lemma_round_to_nothing(d: Seq<u8>, p: nat, e: int)
    requires
        all_digits(d),
        d.len() < -(e + p),
    ensures
        rounds_to(0, p, decimal_value(d), e),
{
    let k = (-(e + p)) as nat;
    lemma_value_bound(d);
    lemma_pow10_grows(d.len(), k);
    let u = pow10(k);
    assert(2 * 0 * u == 0) by (nonlinear_arith);
}

/// Digits followed by `z` zeros count the digits' value times ten to `z`.
proof fn lemma_round_exact(d: Seq<u8>, z: nat)
    ensures
        decimal_value(d + Seq::new(z, |j: int| 48u8)) == decimal_value(d) * pow10(z),
{
    let zs = Seq::new(z, |j: int| 48u8);
    assert(all_digits(zs));
    lemma_value_zero(zs);
    lemma_value_concat(d, zs);
}

/// The digits kept of a run rounded off at `keep`, one more where it rounds up, are the
/// run's value rounded to the place `keep` stops at.
proof fn lemma_round_kept(digits: Seq<u8>, keep: int, up: bool, kept: nat, p: nat, e: int)
    requires
        all_digits(digits),
        0 <= keep < digits.len(),
        up ==> digits[keep] >= 53,
        !up ==> digits[keep] < 53 || (digits[keep] == 53 && forall|i: int| keep < i < digits.len() ==> digits[i] == 48),
        kept == decimal_value(digits.subrange(0, keep)) + if up { 1int } else { 0int },
        e + p == -(digits.len() - keep),
    ensures
        rounds_to(kept, p, decimal_value(digits), e),
{
    lemma_round_off(digits, keep, up);
}

/// Appends bytes that are ASCII digits, as characters.
fn append_digits(text: &mut String, digits: &Vec<u8>, start: usize, end: usize)
    requires
        start <= end <= digits@.len(),
    ensures
        final(text)@ == old(text)@ + digits@.subrange(start as int, end as int).map_values(|b: u8| b as char),
{
    let mut i = start;
    while i < end
        invariant
            start <= i <= end <= digits@.len(),
            text@ == old(text)@ + digits@.subrange(start as int, i as int).map_values(|b: u8| b as char),
        decreases end - i,
    {
        let ghost before = text@;
        push_char(text, digits[i] as char);
        assert(digits@.subrange(start as int, i + 1).map_values(|b: u8| b as char)
            =~= digits@.subrange(start as int, i as int).map_values(|b: u8| b as char).push(digits@[i as int] as char));
        assert(text@ =~= old(text)@ + digits@.subrange(start as int, i + 1).map_values(|b: u8| b as char));
        i = i + 1;
    }
}

/// Whether `n` units of 10^-`p` are the value `d` times 10^`e` rounded to `p` decimals:
/// exactly that value where it has no more decimals, else within half a unit of it.
pub open spec fn rounds_to(n: nat, p: nat, d: nat, e: int) -> bool {
    if e + p >= 0 {
        n == d * pow10((e + p) as nat)
    } else {
        let unit = pow10((-(e + p)) as nat);
        &&& 2 * n * unit <= 2 * d + unit
        &&& 2 * d <= 2 * n * unit + unit
    }
}

/// The parts of a float written in fixed notation with `p` decimals: a `-` where the float
/// is below zero, else a `+` where one is wanted; the whole digits `w`, at least one; and
/// where `p > 0`, a point and the `p` fraction digits `f`. Read together, the digits count
/// the units of 10^-`p` that the float's value rounds to.
pub open spec fn fixed_parts(text: Seq<char>, number: Seq<u8>, p: nat, plus: bool, w: Seq<u8>, f: Seq<u8>) -> bool {
    &&& all_digits(w) && w.len() >= 1
    &&& all_digits(f) && f.len() == p
    &&& text == (if negative(number) { seq!['-'] } else if plus { seq!['+'] } else { Seq::<char>::empty() })
            + crate::number::ascii_chars(w) + (if p > 0 { seq!['.'] + crate::number::ascii_chars(f) } else { Seq::<char>::empty() })
    &&& rounds_to(decimal_value(w + f), p, decimal_value(float_digits(number)), float_exponent(number))
}

/// Whether a text is a float written in fixed notation with `p` decimals, rounded to them.
pub open spec fn fixed_spelling(text: Seq<char>, number: Seq<u8>, p: nat, plus: bool) -> bool {
    exists|w: Seq<u8>, f: Seq<u8>| #[trigger] fixed_parts(text, number, p, plus, w, f)
}

/// The digits of a value `digits` times 10^`e`, rounded half to even to `precision`
/// decimals and counted in units of 10^-`precision`, with no leading zero.
fn round_fixed(digits: &Vec<u8>, e: i128, precision: usize) -> (kept: Vec<u8>)
    requires
        all_digits(digits@),
        digits@.len() > 0 ==> -324 < digits@.len() + e <= 309,
        digits@.len() == 0 ==> e == 0,
    ensures
        all_digits(kept@),
        digits@.len() > 0 ==> rounds_to(decimal_value(kept@), precision as nat, decimal_value(digits@), e as int),
        digits@.len() == 0 ==> kept@.len() == 0,
{
    let n = digits.len();
    let ghost dv = decimal_value(digits@);
    let ghost ev = e as int;
    let s: i128 = e + precision as i128;
    let mut kept: Vec<u8> = Vec::new();
    if n > 0 {
        if s >= 0 {
            let mut i: usize = 0;
            while i < n
                invariant
                    i <= n == digits@.len(),
                    kept@ == digits@.subrange(0, i as int),
                decreases n - i,
            {
                kept.push(digits[i]);
                i = i + 1;
                assert(kept@ =~= digits@.subrange(0, i as int));
            }
            let mut z: i128 = 0;
            while z < s
                invariant
                    0 <= z <= s,
                    kept@ == digits@ + Seq::new(z as nat, |j: int| 48u8),
                decreases s - z,
            {
                kept.push(48);
                z = z + 1;
                assert(kept@ =~= digits@ + Seq::new(z as nat, |j: int| 48u8));
            }
            proof {
                lemma_round_exact(digits@, s as nat);
            }
        } else if 0 - s <= n as i128 {
            let keep: usize = (n as i128 + s) as usize;
            let mut i: usize = 0;
            while i < keep
                invariant
                    i <= keep < n == digits@.len(),
                    kept@ == digits@.subrange(0, i as int),
                decreases keep - i,
            {
                kept.push(digits[i]);
                i = i + 1;
                assert(kept@ =~= digits@.subrange(0, i as int));
            }
            let last_odd = keep > 0 && (digits[keep - 1] - 48) % 2 == 1;
            let up = rounds_up(&digits, keep, last_odd);
            let ghost before = decimal_value(kept@);
            proof {
                assert(all_digits(digits@));
                if !up && digits@[keep as int] == 53 {
                    assert forall|i: int| keep < i < digits@.len() implies digits@[i] == 48 by {
                        if digits@[i] != 48 {
                            assert(keep < i < digits@.len() && digits@[i] != 48);
                        }
                    }
                }
            }
            if up {
                increment(&mut kept);
            }
            proof {
                lemma_round_kept(digits@, keep as int, up, decimal_value(kept@), precision as nat, ev);
            }
        } else {
            proof {
                lemma_round_to_nothing(digits@, precision as nat, ev);
            }
        }
    }
    kept
}

/// Digits padded with leading zeros to at least one more than `precision` of them.
fn pad_fixed(kept: &Vec<u8>, precision: usize) -> (full: Vec<u8>)
    requires
        all_digits(kept@),
    ensures
        all_digits(full@),
        full@.len() >= precision + 1,
        decimal_value(full@) == decimal_value(kept@),
{
    let mut full: Vec<u8> = Vec::new();
    if kept.len() <= precision {
        let pad = precision - kept.len();
        full.push(48);
        let mut j: usize = 0;
        while j < pad
            invariant
                j <= pad,
                full@ == Seq::new((j + 1) as nat, |i: int| 48u8),
            decreases pad - j,
        {
            full.push(48);
            j = j + 1;
            assert(full@ =~= Seq::new((j + 1) as nat, |i: int| 48u8));
        }
    }
    let ghost zeros = full@;
    let mut i: usize = 0;
    while i < kept.len()
        invariant
            i <= kept@.len(),
            full@ == zeros + kept@.subrange(0, i as int),
        decreases kept@.len() - i,
    {
        full.push(kept[i]);
        i = i + 1;
        assert(full@ =~= zeros + kept@.subrange(0, i as int));
    }
    proof {
        assert(kept@.subrange(0, kept@.len() as int) =~= kept@);
        assert(forall|k: int| 0 <= k < zeros.len() ==> #[trigger] zeros[k] == 48);
        assert(all_digits(zeros));
        lemma_value_zero(zeros);
        lemma_value_concat(zeros, kept@);
    }
    full
}

/// A float written with `precision` digits after its point, or in exponent notation with
/// that many digits after the point of its mantissa; its spelled value is rounded half to
/// even.
#[verifier::rlimit(40)]
fn float_text(number: &Float, precision: usize, exponent: bool) -> (text: String)
    ensures
        text@.len() > 0,
        (text@[0] == '-') == negative(number@),
        negative(number@) ==> text@.len() > 1 && is_digit(text@[1]),
        !negative(number@) ==> is_digit(text@[0]),
        !exponent && (precision < 324 || !float_vanishes(number@)) ==> fixed_spelling(text@, number@, precision as nat, false),
{
    let (minus, digits, e) = number.scaled();
    let mut text = String::new();
    if minus {
        push_char(&mut text, '-');
    }
    if exponent {
        if digits.len() == 0 {
            push_char(&mut text, '0');
            if precision > 0 {
                push_char(&mut text, '.');
                append(&mut text, run('0', precision).as_str());
            }
            append(&mut text, "e0");
            return text;
        }
        let mut power: i128 = digits.len() as i128 - 1 + e;
        let wanted: usize = if precision < usize::MAX { precision + 1 } else { precision };
        let mut mantissa: Vec<u8> = Vec::new();
        let mut i: usize = 0;
        while i < digits.len() && i < wanted
            invariant
                i <= digits@.len(),
                mantissa@.len() == i,
                forall|k: int| 0 <= k < digits@.len() ==> 48 <= #[trigger] digits@[k] <= 57,
                forall|k: int| 0 <= k < mantissa@.len() ==> 48 <= #[trigger] mantissa@[k] <= 57,
            decreases digits@.len() - i,
        {
            mantissa.push(digits[i]);
            i = i + 1;
        }
        if wanted < digits.len() {
            let last_odd = (mantissa[mantissa.len() - 1] - 48) % 2 == 1;
            if rounds_up(&digits, wanted, last_odd) {
                increment(&mut mantissa);
                if mantissa.len() > wanted {
                    mantissa.pop();
                    power = power + 1;
                }
            }
        }
        push_char(&mut text, mantissa[0] as char);
        if precision > 0 {
            push_char(&mut text, '.');
            append_digits(&mut text, &mantissa, 1, mantissa.len());
            if mantissa.len() - 1 < precision {
                append(&mut text, run('0', precision - (mantissa.len() - 1)).as_str());
            }
        }
        push_char(&mut text, 'e');
        if power < 0 {
            push_char(&mut text, '-');
            append_chars(&mut text, &decimal_chars((0 - power) as u128));
        } else {
            append_chars(&mut text, &decimal_chars(power as u128));
        }
        return text;
    }
    let n = digits.len();
    let ghost dv = decimal_value(float_digits(number@));
    let ghost ev = float_exponent(number@);
    let ghost fits = precision < 324 || !float_vanishes(number@);
    let ghost prefix = text@;
    let kept = round_fixed(&digits, e, precision);
    if n == 0 {
        proof {
            if float_digits(number@).len() > 0 {
                if fits {
                    assert(all_digits(float_digits(number@)));
                    lemma_round_to_nothing(float_digits(number@), precision as nat, ev);
                }
            } else {
                assert(dv == 0);
                if ev + precision >= 0 {
                    let u = pow10((ev + precision) as nat);
                    assert(0 * u == 0) by (nonlinear_arith);
                } else {
                    lemma_round_to_nothing(float_digits(number@), precision as nat, ev);
                }
                assert(rounds_to(0, precision as nat, dv, ev));
            }
        }
    }
    assert(fits ==> rounds_to(decimal_value(kept@), precision as nat, dv, ev));
    let full = pad_fixed(&kept, precision);
    let split = full.len() - precision;
    append_digits(&mut text, &full, 0, split);
    if precision > 0 {
        push_char(&mut text, '.');
        append_digits(&mut text, &full, split, full.len());
    }
    proof {
        let w = full@.subrange(0, split as int);
        let f = full@.subrange(split as int, full@.len() as int);
        assert(w + f =~= full@);
        assert(all_digits(full@));
        assert(all_digits(w));
        assert(all_digits(f));
        if precision > 0 {
            assert(text@ =~= prefix + crate::number::ascii_chars(w) + (seq!['.'] + crate::number::ascii_chars(f)));
        } else {
            assert(text@ =~= prefix + crate::number::ascii_chars(w) + Seq::<char>::empty());
        }
        if fits {
            assert(fixed_parts(text@, number@, precision as nat, false, w, f));
        }
    }
    text
}

/// A float as a hole hands it over: it needs a precision, and takes no radix.
pub fn of_float(number: &Float, spec: &Spec) -> (written: Result<String, ErrorKind>)
    ensures
        spec.precision is None ==> written == Err::<String, ErrorKind>(ErrorKind::NeedsPrecision),
        spec.precision is Some ==> match spec.notation {
            Some(n) => n != Notation::Exponent ==> written == Err::<String, ErrorKind>(ErrorKind::UnfitSpec),
            None => written is Ok,
        },
        spec.precision is Some && spec.notation == Some(Notation::Exponent) ==> written is Ok,
        spec.precision is Some && spec.notation is None && (spec.precision->0 < 324 || !float_vanishes(number@))
            ==> (written matches Ok(t) && fixed_spelling(t@, number@, spec.precision->0 as nat, spec.sign)),
{
    let precision = match spec.precision {
        None => return Err(ErrorKind::NeedsPrecision),
        Some(p) => p,
    };
    let exponent = match spec.notation {
        None => false,
        Some(Notation::Exponent) => true,
        Some(_) => return Err(ErrorKind::UnfitSpec),
    };
    let body = float_text(number, precision, exponent);
    let text = signed(body, spec.sign);
    proof {
        if !exponent && (precision < 324 || !float_vanishes(number@)) {
            let (w, f) = choose|w: Seq<u8>, f: Seq<u8>| #[trigger] fixed_parts(body@, number@, precision as nat, false, w, f);
            assert(fixed_parts(body@, number@, precision as nat, false, w, f));
            let rest = crate::number::ascii_chars(w) + (if precision > 0 { seq!['.'] + crate::number::ascii_chars(f) } else { Seq::<char>::empty() });
            if negative(number@) {
                assert(body@ =~= seq!['-'] + rest);
                assert(body@[0] == '-');
                assert(text@ == body@);
            } else {
                assert(body@ =~= rest);
                assert(crate::number::ascii_chars(w)[0] == w[0] as char);
                assert(48 <= w[0] <= 57);
                assert(body@[0] == w[0] as char);
                assert(body@[0] != '-');
                if spec.sign {
                    assert(text@ =~= seq!['+'] + rest);
                } else {
                    assert(text@ =~= Seq::<char>::empty() + rest);
                }
            }
            let tail = if precision > 0 { seq!['.'] + crate::number::ascii_chars(f) } else { Seq::<char>::empty() };
            let sign_part = if negative(number@) { seq!['-'] } else if spec.sign { seq!['+'] } else { Seq::<char>::empty() };
            assert(text@ =~= sign_part + crate::number::ascii_chars(w) + tail);
            assert(fixed_parts(text@, number@, precision as nat, spec.sign, w, f));
        }
    }
    Ok(text)
}

/// An integer written in the radix a notation asks for, with the prefix, sign and padding
/// its specifier asks for.
pub open spec fn radix_written(number: Seq<u8>, s: Spec, n: Notation) -> Seq<char> {
    padded(signed_text((if s.prefixed { radix_of(n).2 } else { Seq::empty() })
        + radix_digits(integer_value(number) as nat, radix_of(n).0, radix_of(n).1), s.sign), s, true)
}

/// What the text a value hands over through a hole is known to be: a string or an integer
/// as it is, or written out the way a specifier asks, padded to its width.
pub open spec fn writes(value: Value, spec: Option<Spec>, written: Result<String, ErrorKind>) -> bool {
    &&& (spec is None ==> match value {
            Value::String(s) => written matches Ok(t) && t@ == s@,
            Value::Integer(i) => written matches Ok(t) && t@ == crate::number::ascii_chars(i@),
            Value::Float(_) => written == Err::<String, ErrorKind>(ErrorKind::NeedsPrecision),
            _ => written == Err::<String, ErrorKind>(ErrorKind::NoText),
        })
    &&& (spec matches Some(s) ==> (s.prefixed && s.notation is None) ==> written == Err::<String, ErrorKind>(ErrorKind::UnfitSpec))
    &&& (spec matches Some(s) ==> (s.zeroed && (s.width is None || s.align is Some || s.fill is Some))
            ==> written == Err::<String, ErrorKind>(ErrorKind::UnfitSpec))
    &&& (spec matches Some(s) ==> !(value is String || value is Integer || value is Float) && !(s.prefixed && s.notation is None)
            && !(s.zeroed && (s.width is None || s.align is Some || s.fill is Some)) ==> written == Err::<String, ErrorKind>(ErrorKind::NoText))
    &&& (spec matches Some(s) ==> value matches Value::String(text) ==> !(s.prefixed && s.notation is None)
            && !(s.zeroed && (s.width is None || s.align is Some || s.fill is Some)) && !(s.precision is Some || s.notation is Some || s.sign)
            ==> (written matches Ok(t) && t@ == padded(text@, s, false)))
    &&& (spec matches Some(s) ==> value matches Value::Integer(number) ==> !(s.prefixed && s.notation is None)
            && !(s.zeroed && (s.width is None || s.align is Some || s.fill is Some)) && s.precision is None && s.notation is None
            ==> (written matches Ok(t) && t@ == padded(signed_text(crate::number::ascii_chars(number@), s.sign), s, true)))
    &&& (spec matches Some(s) ==> value matches Value::Integer(number) ==> match s.notation {
            Some(n) => !(s.zeroed && (s.width is None || s.align is Some || s.fill is Some)) && s.precision is None
                && n != Notation::Exponent && !negative(number@) && integer_value(number@) <= i128::MAX
                ==> (written matches Ok(t) && t@ == radix_written(number@, s, n)),
            None => true,
        })
    &&& (spec matches Some(s) ==> value matches Value::Integer(_) ==> !(s.prefixed && s.notation is None)
            && !(s.zeroed && (s.width is None || s.align is Some || s.fill is Some)) && s.precision is Some
            ==> written == Err::<String, ErrorKind>(ErrorKind::UnfitSpec))
    &&& (spec matches Some(s) ==> value matches Value::Float(_) ==> !(s.prefixed && s.notation is None)
            && !(s.zeroed && (s.width is None || s.align is Some || s.fill is Some)) && s.precision is None
            ==> written == Err::<String, ErrorKind>(ErrorKind::NeedsPrecision))
    &&& (spec matches Some(s) ==> value matches Value::Float(number) ==> !(s.prefixed && s.notation is None)
            && !(s.zeroed && (s.width is None || s.align is Some || s.fill is Some)) && s.precision is Some && s.notation is None
            && (s.precision->0 < 324 || !float_vanishes(number@))
            ==> exists|body: Seq<char>| #[trigger] fixed_spelling(body, number@, s.precision->0 as nat, s.sign)
                && (written matches Ok(t) && t@ == padded(body, s, true)))
}

/// The text a value hands over through a hole: a string or an integer as it is, or
/// written out the way a specifier asks, padded to its width.
pub fn of(value: &Value, spec: Option<Spec>) -> (written: Result<String, ErrorKind>)
    ensures
        writes(*value, spec, written),
{
    let spec = match spec {
        None => {
            return match value {
                Value::String(text) => Ok(owned(text.as_str())),
                Value::Integer(number) => Ok(owned(number.as_str())),
                Value::Float(_) => Err(ErrorKind::NeedsPrecision),
                _ => Err(ErrorKind::NoText),
            };
        },
        Some(spec) => spec,
    };
    if spec.prefixed && spec.notation.is_none() {
        return Err(ErrorKind::UnfitSpec);
    }
    if spec.zeroed && (spec.width.is_none() || spec.align.is_some() || spec.fill.is_some()) {
        return Err(ErrorKind::UnfitSpec);
    }
    let (body, numeric) = match value {
        Value::String(text) => (of_string(text.as_str(), &spec)?, false),
        Value::Integer(number) => (of_integer(number, &spec)?, true),
        Value::Float(number) => (of_float(number, &spec)?, true),
        _ => return Err(ErrorKind::NoText),
    };
    Ok(pad(body, &spec, numeric))
}

} // verus!
