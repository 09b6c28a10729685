//! The naming convention `<prefix>_<base name>`: a decimal number, an
//! underscore, and the rest of the name.

use crate::text::{chars_of, string_of_range};
use vstd::prelude::*;

verus! {

/// A name taken apart: the number in front of it, if it has one, and the rest.
#[derive(Debug, PartialEq, Eq)]
pub struct NumberedName {
    pub prefix: Option<u32>,
    pub base_name: String,
}

/// What a `NumberedName` stands for.
pub struct NumberedNameView {
    pub prefix: Option<u32>,
    pub base_name: Seq<char>,
}

impl View for NumberedName {
    type V = NumberedNameView;

    open spec fn view(&self) -> NumberedNameView {
        NumberedNameView { prefix: self.prefix, base_name: self.base_name@ }
    }
}

/// `c` is one of the ten ASCII digits.
pub open spec fn is_digit(c: char) -> bool {
    '0' <= c && c <= '9'
}

/// The number that the digit `c` stands for.
pub open spec fn digit_value(c: char) -> nat {
    (c as int - '0' as int) as nat
}

/// The digit that stands for `d`, for `d` below ten.
pub open spec fn digit_char(d: nat) -> char {
    ('0' as int + d as int) as char
}

/// Every character of `s` is a digit.
pub open spec fn all_digits(s: Seq<char>) -> bool {
    forall|i: int| 0 <= i < s.len() ==> is_digit(#[trigger] s[i])
}

/// The number that the digits `s` spell in base ten; leading zeros count for nothing.
pub open spec fn decimal_value(s: Seq<char>) -> nat
    decreases s.len(),
{
    if s.len() == 0 {
        0
    } else {
        decimal_value(s.drop_last()) * 10 + digit_value(s.last())
    }
}

/// `n` in base ten, without leading zeros.
pub open spec fn decimal_digits(n: nat) -> Seq<char>
    decreases n,
{
    if n < 10 {
        seq![digit_char(n)]
    } else {
        decimal_digits(n / 10).push(digit_char(n % 10))
    }
}

/// `count` zeros.
pub open spec fn zeros(count: nat) -> Seq<char> {
    Seq::new(count, |i: int| '0')
}

/// `n` in base ten, filled up with zeros in front to at least `width` digits.
pub open spec fn zero_padded(n: nat, width: nat) -> Seq<char> {
    let digits = decimal_digits(n);
    if digits.len() < width {
        zeros((width - digits.len()) as nat) + digits
    } else {
        digits
    }
}

/// The number of characters in front of the first underscore of `s`, or the
/// length of `s` where it holds none.
pub open spec fn separator_index(s: Seq<char>) -> nat
    decreases s.len(),
{
    if s.len() == 0 || s[0] == '_' {
        0
    } else {
        1 + separator_index(s.skip(1))
    }
}

/// `name` starts with a number that fits a prefix, followed by an underscore.
pub open spec fn has_prefix(name: Seq<char>) -> bool {
    let at = separator_index(name) as int;
    &&& 0 < at < name.len()
    &&& all_digits(name.take(at))
    &&& decimal_value(name.take(at)) <= u32::MAX
}

/// How a name is read: the part in front of the first underscore is the prefix
/// if it is a number, and the part behind that underscore is then the base
/// name. Any other name has no prefix and is its own base name.
pub open spec fn decode_spec(name: Seq<char>) -> NumberedNameView {
    let at = separator_index(name) as int;
    if has_prefix(name) {
        NumberedNameView {
            prefix: Some(decimal_value(name.take(at)) as u32),
            base_name: name.skip(at + 1),
        }
    } else {
        NumberedNameView { prefix: None, base_name: name }
    }
}

/// How a name is written: the zero-padded prefix, an underscore, the base name.
pub open spec fn encode_spec(prefix: nat, base_name: Seq<char>, width: nat) -> Seq<char> {
    zero_padded(prefix, width) + seq!['_'] + base_name
}

/// The first underscore of `s` is the one at `at` when none stands in front of it.
pub proof fn lemma_separator_index(s: Seq<char>, at: int)
    requires
        0 <= at <= s.len(),
        forall|j: int| 0 <= j < at ==> s[j] != '_',
        at < s.len() ==> s[at] == '_',
    ensures
        separator_index(s) == at,
    decreases at,
{
    if at > 0 {
        let rest = s.skip(1);
        assert forall|j: int| 0 <= j < at - 1 implies rest[j] != '_' by {
            assert(rest[j] == s[j + 1]);
        }
        lemma_separator_index(rest, at - 1);
    }
}

/// Where a name holds an underscore, the separator is one.
pub proof fn lemma_separator_is_underscore(s: Seq<char>)
    ensures
        separator_index(s) <= s.len(),
        separator_index(s) < s.len() ==> s[separator_index(s) as int] == '_',
    decreases s.len(),
{
    if s.len() > 0 && s[0] != '_' {
        lemma_separator_is_underscore(s.skip(1));
    }
}

/// A number read from the first digits of a digit string is no larger than
/// the number read from all of them.
pub proof fn lemma_decimal_value_grows(s: Seq<char>, k: int)
    requires
        0 <= k <= s.len(),
    ensures
        decimal_value(s.take(k)) <= decimal_value(s),
    decreases s.len(),
{
    if k == s.len() {
        assert(s.take(k) =~= s);
    } else {
        let shorter = s.drop_last();
        assert(shorter.take(k) =~= s.take(k));
        lemma_decimal_value_grows(shorter, k);
    }
}

/// The digits of a number are digits, and there is at least one.
pub proof fn lemma_decimal_digits_are_digits(n: nat)
    ensures
        decimal_digits(n).len() >= 1,
        all_digits(decimal_digits(n)),
    decreases n,
{
    if n >= 10 {
        lemma_decimal_digits_are_digits(n / 10);
    }
}

/// Reading the digits of a number gives the number back.
pub proof fn lemma_decimal_value_of_digits(n: nat)
    ensures
        decimal_value(decimal_digits(n)) == n,
    decreases n,
{
    let digits = decimal_digits(n);
    if n < 10 {
        assert(digits.drop_last() =~= Seq::<char>::empty());
        assert(decimal_value(digits.drop_last()) == 0);
    } else {
        lemma_decimal_value_of_digits(n / 10);
        assert(digits.drop_last() =~= decimal_digits(n / 10));
    }
}

/// Zeros in front of a digit string do not change the number it spells.
pub proof fn lemma_leading_zeros(count: nat, s: Seq<char>)
    ensures
        decimal_value(zeros(count) + s) == decimal_value(s),
    decreases s.len(), count,
{
    let all = zeros(count) + s;
    if s.len() > 0 {
        assert(all.drop_last() =~= zeros(count) + s.drop_last());
        lemma_leading_zeros(count, s.drop_last());
    } else if count > 0 {
        assert(all.drop_last() =~= zeros((count - 1) as nat) + s);
        lemma_leading_zeros((count - 1) as nat, s);
    } else {
        assert(all =~= s);
    }
}

/// A zero-padded number is made of digits, has at least one, and spells the number.
pub proof fn lemma_zero_padded(n: nat, width: nat)
    ensures
        zero_padded(n, width).len() >= 1,
        zero_padded(n, width).len() >= width,
        all_digits(zero_padded(n, width)),
        decimal_value(zero_padded(n, width)) == n,
{
    let digits = decimal_digits(n);
    lemma_decimal_digits_are_digits(n);
    lemma_decimal_value_of_digits(n);
    if digits.len() < width {
        lemma_leading_zeros((width - digits.len()) as nat, digits);
    }
}

/// Writing a name and reading it again gives back the prefix and the base
/// name, whatever the width and whatever the base name holds.
pub proof fn lemma_decode_encode(prefix: u32, base_name: Seq<char>, width: nat)
    ensures
        decode_spec(encode_spec(prefix as nat, base_name, width)) == (NumberedNameView {
            prefix: Some(prefix),
            base_name,
        }),
{
    let number = zero_padded(prefix as nat, width);
    let name = encode_spec(prefix as nat, base_name, width);
    let at = number.len() as int;
    lemma_zero_padded(prefix as nat, width);
    assert forall|j: int| 0 <= j < at implies name[j] != '_' by {
        assert(name[j] == number[j]);
        assert(is_digit(number[j]));
    }
    assert(name[at] == '_');
    lemma_separator_index(name, at);
    assert(name.take(at) =~= number);
    assert(name.skip(at + 1) =~= base_name);
}

/// The digit for `d`.
fn digit_of(d: u64) -> (c: char)
    requires
        d < 10,
    ensures
        c == digit_char(d as nat),
        is_digit(c),
{
    let code: u8 = 48u8 + (d as u8);
    code as char
}

/// Reads the digits `cs[..end]` as a number. `None` where there is no digit,
/// where something else than a digit stands among them, or where the number
/// does not fit.
fn parse_prefix(cs: &Vec<char>, end: usize) -> (r: Option<u32>)
    requires
        end <= cs.len(),
    ensures
        r is Some <==> end > 0 && all_digits(cs@.take(end as int)) && decimal_value(
            cs@.take(end as int),
        ) <= u32::MAX,
        r matches Some(n) ==> n == decimal_value(cs@.take(end as int)),
{
    if end == 0 {
        return None;
    }
    let ghost digits = cs@.take(end as int);
    let mut value: u64 = 0;
    let mut k: usize = 0;
    while k < end
        invariant
            k <= end <= cs.len(),
            digits == cs@.take(end as int),
            all_digits(digits.take(k as int)),
            value == decimal_value(digits.take(k as int)),
            value <= u32::MAX,
        decreases end - k,
    {
        let c = cs[k];
        assert(digits[k as int] == c);
        if c < '0' || c > '9' {
            return None;
        }
        let d: u64 = (c as u64) - 48;
        let ghost longer = digits.take(k + 1);
        proof {
            assert(longer.drop_last() =~= digits.take(k as int));
            assert(longer.last() == c);
            assert(d == digit_value(c));
            assert forall|i: int| 0 <= i < longer.len() implies is_digit(#[trigger] longer[i]) by {
                if i < k {
                    assert(longer[i] == digits.take(k as int)[i]);
                }
            }
        }
        value = value * 10 + d;
        if value > 0xffff_ffff {
            proof {
                lemma_decimal_value_grows(digits, k + 1);
            }
            return None;
        }
        k += 1;
    }
    assert(digits.take(end as int) =~= digits);
    Some(value as u32)
}

/// Splits the number off the front of `name`: the prefix and the base name,
/// or `None` for a name without a prefix.
pub fn split_number_from_name(name: &str) -> (r: Option<(u32, String)>)
    ensures
        r is Some <==> has_prefix(name@),
        r matches Some((prefix, base_name)) ==> decode_spec(name@) == (NumberedNameView {
            prefix: Some(prefix),
            base_name: base_name@,
        }),
{
    let cs = chars_of(name);
    let mut at: usize = 0;
    while at < cs.len() && cs[at] != '_'
        invariant
            at <= cs.len(),
            forall|j: int| 0 <= j < at ==> cs@[j] != '_',
        decreases cs.len() - at,
    {
        at += 1;
    }
    proof {
        lemma_separator_index(cs@, at as int);
    }
    if at == cs.len() {
        return None;
    }
    match parse_prefix(&cs, at) {
        Some(prefix) => {
            let base_name = string_of_range(&cs, at + 1, cs.len());
            Some((prefix, base_name))
        },
        None => None,
    }
}

/// Reads `name` as a numbered name. Every name can be read.
pub fn decode(name: &str) -> (r: NumberedName)
    ensures
        r@ == decode_spec(name@),
{
    match split_number_from_name(name) {
        Some((prefix, base_name)) => NumberedName { prefix: Some(prefix), base_name },
        None => NumberedName { prefix: None, base_name: name.to_owned() },
    }
}

/// Writes the name that carries `prefix` in front of `base_name`, the number
/// filled up with zeros to `width` digits; a number with more digits than
/// that is written in full.
pub fn encode(prefix: u64, base_name: &str, width: usize) -> (out: String)
    ensures
        out@ == encode_spec(prefix as nat, base_name@, width as nat),
{
    let mut reversed: Vec<char> = Vec::new();
    let mut rest: u64 = prefix;
    while rest >= 10
        invariant
            decimal_digits(prefix as nat) == decimal_digits(rest as nat) + reversed@.reverse(),
        decreases rest,
    {
        let digit = digit_of(rest % 10);
        proof {
            let before = reversed@;
            let after = before.push(digit);
            assert(after.reverse() =~= seq![digit] + before.reverse());
            assert(decimal_digits(rest as nat) == decimal_digits((rest / 10) as nat).push(digit));
            assert(decimal_digits((rest / 10) as nat).push(digit) + before.reverse()
                =~= decimal_digits((rest / 10) as nat) + after.reverse());
        }
        reversed.push(digit);
        rest = rest / 10;
    }
    let first = digit_of(rest);
    proof {
        let before = reversed@;
        assert(before.push(first).reverse() =~= seq![first] + before.reverse());
    }
    reversed.push(first);
    assert(reversed@.reverse() == decimal_digits(prefix as nat));

    let ghost digits = decimal_digits(prefix as nat);
    let count = reversed.len();
    let mut out = String::new();
    let mut filled: usize = count;
    while filled < width
        invariant
            count <= filled,
            filled <= width || filled == count,
            out@ == zeros((filled - count) as nat),
        decreases width - filled,
    {
        out.push('0');
        filled += 1;
        assert(out@ =~= zeros((filled - count) as nat));
    }
    let ghost padding = out@;
    let mut left: usize = count;
    while left > 0
        invariant
            left <= count,
            count == reversed.len(),
            digits == reversed@.reverse(),
            out@ == padding + digits.take(count - left),
        decreases left,
    {
        left -= 1;
        let c = reversed[left];
        proof {
            let k = count - left - 1;
            assert(digits[k] == c);
            assert(digits.take(k + 1) =~= digits.take(k).push(c));
            assert(padding + digits.take(k).push(c) =~= (padding + digits.take(k)).push(c));
        }
        out.push(c);
    }
    assert(digits.take(count as int) =~= digits);
    assert(out@ =~= zero_padded(prefix as nat, width as nat));
    out.push('_');
    out.append(base_name);
    assert(out@ =~= encode_spec(prefix as nat, base_name@, width as nat));
    out
}

} // verus!
