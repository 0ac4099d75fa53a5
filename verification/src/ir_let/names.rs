//! Generated names.
//!
//! A generated name is a source name, two underscores, and the decimal
//! numeral of a counter's value. The numeral can be read back from the name,
//! whatever the source name was, so two names generated at different counts
//! are different names.

use vstd::prelude::*;
use vstd::string::*;
use crate::syntax::Name;

verus! {

/// The character of a decimal digit.
pub open spec fn digit_char(digit: int) -> char {
    if digit == 0 {
        '0'
    } else if digit == 1 {
        '1'
    } else if digit == 2 {
        '2'
    } else if digit == 3 {
        '3'
    } else if digit == 4 {
        '4'
    } else if digit == 5 {
        '5'
    } else if digit == 6 {
        '6'
    } else if digit == 7 {
        '7'
    } else if digit == 8 {
        '8'
    } else {
        '9'
    }
}

/// The digit that a character stands for, if it is one.
pub open spec fn digit_value(c: char) -> Option<int> {
    if c == '0' {
        Some(0)
    } else if c == '1' {
        Some(1)
    } else if c == '2' {
        Some(2)
    } else if c == '3' {
        Some(3)
    } else if c == '4' {
        Some(4)
    } else if c == '5' {
        Some(5)
    } else if c == '6' {
        Some(6)
    } else if c == '7' {
        Some(7)
    } else if c == '8' {
        Some(8)
    } else if c == '9' {
        Some(9)
    } else {
        None
    }
}

/// The decimal numeral of `n`, without leading zeros.
pub open spec fn decimal(n: nat) -> Seq<char>
    decreases n,
{
    if n < 10 {
        seq![digit_char(n as int)]
    } else {
        decimal(n / 10).push(digit_char((n % 10) as int))
    }
}

/// What separates the source name from the numeral.
pub open spec fn separator() -> Seq<char> {
    seq!['_', '_']
}

/// The name generated from `base` at count `count`.
pub open spec fn fresh_name(base: Name, count: nat) -> Name {
    base + separator() + decimal(count)
}

/// The number that the digits at the end of `name` spell; 0 where it ends in
/// no digit.
pub open spec fn generation(name: Name) -> nat
    decreases name.len(),
{
    if name.len() == 0 {
        0
    } else {
        match digit_value(name.last()) {
            None => 0,
            Some(digit) => (generation(name.drop_last()) * 10 + digit) as nat,
        }
    }
}

/// The count at which a name was generated can be read back from it.
pub proof fn lemma_generation_of_fresh_name(base: Name, count: nat)
    ensures
        generation(fresh_name(base, count)) == count,
    decreases count,
{
    let stem = base + separator();
    assert(stem.last() == '_');
    assert(generation(stem) == 0);
    let name = fresh_name(base, count);
    let digit = (count % 10) as int;
    assert(digit_value(digit_char(digit)) == Some(digit));
    if count < 10 {
        assert(name =~= stem.push(digit_char(digit)));
        assert(name.drop_last() =~= stem);
    } else {
        lemma_generation_of_fresh_name(base, count / 10);
        assert(name =~= fresh_name(base, count / 10).push(digit_char(digit)));
        assert(name.drop_last() =~= fresh_name(base, count / 10));
    }
}

/// Whether the last character of `name` is a digit.
pub open spec fn ends_in_digit(name: Name) -> bool {
    name.len() > 0 && digit_value(name.last()) is Some
}

/// A decimal numeral is not empty and ends in a digit.
pub proof fn lemma_decimal_ends_in_digit(n: nat)
    ensures
        ends_in_digit(decimal(n)),
{
    let digit = (n % 10) as int;
    assert(digit_value(digit_char(digit)) == Some(digit));
    if n >= 10 {
        assert(decimal(n).last() == digit_char(digit));
    }
}

/// A generated name ends in a digit.
pub proof fn lemma_fresh_name_ends_in_digit(base: Name, count: nat)
    ensures
        ends_in_digit(fresh_name(base, count)),
{
    lemma_decimal_ends_in_digit(count);
    assert(fresh_name(base, count).last() == decimal(count).last());
}

/// `name` without the digits at its end.
pub open spec fn without_numeral(name: Name) -> Name
    decreases name.len(),
{
    if name.len() > 0 && digit_value(name.last()) is Some {
        without_numeral(name.drop_last())
    } else {
        name
    }
}

/// The name that a generated name was derived from: what stands before the
/// separator and the numeral. A name that does not end in a separator and a
/// numeral is its own source.
pub open spec fn source_name(name: Name) -> Name {
    let stem = without_numeral(name);
    if stem.len() >= 2 && stem.len() < name.len() && stem.subrange(stem.len() - 2, stem.len() as int)
        == separator() {
        stem.subrange(0, stem.len() - 2)
    } else {
        name
    }
}

/// What is put in front of a numeral is left when the numeral is taken off,
/// if it ends in no digit.
pub proof fn lemma_without_numeral_of_decimal(front: Name, n: nat)
    requires
        !ends_in_digit(front),
    ensures
        without_numeral(front + decimal(n)) == front,
    decreases n,
{
    let digit = (n % 10) as int;
    assert(digit_value(digit_char(digit)) == Some(digit));
    let whole = front + decimal(n);
    if n < 10 {
        assert(whole =~= front.push(digit_char(digit)));
        assert(whole.drop_last() =~= front);
        assert(without_numeral(front) == front);
    } else {
        lemma_without_numeral_of_decimal(front, n / 10);
        assert(whole =~= (front + decimal(n / 10)).push(digit_char(digit)));
        assert(whole.drop_last() =~= front + decimal(n / 10));
    }
}

/// The source of a generated name is the name that it was generated from.
pub proof fn lemma_source_of_fresh_name(base: Name, count: nat)
    ensures
        source_name(fresh_name(base, count)) == base,
{
    let front = base + separator();
    assert(front.last() == '_');
    lemma_without_numeral_of_decimal(front, count);
    lemma_decimal_ends_in_digit(count);
    assert(fresh_name(base, count) =~= front + decimal(count));
    assert(front.subrange(front.len() - 2, front.len() as int) =~= separator());
    assert(front.subrange(0, front.len() - 2) =~= base);
}

/// Names generated at different counts differ.
pub proof fn lemma_fresh_names_differ(base: Name, count: nat, other_base: Name, other_count: nat)
    requires
        count != other_count,
    ensures
        fresh_name(base, count) != fresh_name(other_base, other_count),
{
    lemma_generation_of_fresh_name(base, count);
    lemma_generation_of_fresh_name(other_base, other_count);
}

fn digit_str(digit: u64) -> (text: &'static str)
    requires
        digit < 10,
    ensures
        text@ == seq![digit_char(digit as int)],
{
    proof {
        reveal_strlit("0");
        reveal_strlit("1");
        reveal_strlit("2");
        reveal_strlit("3");
        reveal_strlit("4");
        reveal_strlit("5");
        reveal_strlit("6");
        reveal_strlit("7");
        reveal_strlit("8");
        reveal_strlit("9");
    }
    let text = if digit == 0 {
        "0"
    } else if digit == 1 {
        "1"
    } else if digit == 2 {
        "2"
    } else if digit == 3 {
        "3"
    } else if digit == 4 {
        "4"
    } else if digit == 5 {
        "5"
    } else if digit == 6 {
        "6"
    } else if digit == 7 {
        "7"
    } else if digit == 8 {
        "8"
    } else {
        "9"
    };
    assert(text@ =~= seq![digit_char(digit as int)]);
    text
}

/// The decimal numeral of `n`.
pub fn decimal_string(n: u64) -> (text: String)
    ensures
        text@ == decimal(n as nat),
    decreases n,
{
    if n < 10 {
        digit_str(n).to_owned()
    } else {
        let mut text = decimal_string(n / 10);
        text.append(digit_str(n % 10));
        assert(text@ =~= decimal((n / 10) as nat).push(digit_char((n % 10) as int)));
        text
    }
}

/// The name generated from `base` at count `count`.
pub fn generate_name(base: &str, count: u64) -> (name: String)
    ensures
        name@ == fresh_name(base@, count as nat),
{
    proof {
        reveal_strlit("__");
    }
    let mut name = base.to_owned();
    name.append("__");
    let numeral = decimal_string(count);
    name.append(numeral.as_str());
    assert("__"@ =~= separator());
    name
}

} // verus!
