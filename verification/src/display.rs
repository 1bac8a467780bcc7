//! Text for the display of the simulator's state.

use vstd::prelude::*;
use vstd::string::*;

verus! {

/// The character of the decimal digit `d`.
pub open spec fn digit_char(d: nat) -> char {
    if d == 0 {
        '0'
    } else if d == 1 {
        '1'
    } else if d == 2 {
        '2'
    } else if d == 3 {
        '3'
    } else if d == 4 {
        '4'
    } else if d == 5 {
        '5'
    } else if d == 6 {
        '6'
    } else if d == 7 {
        '7'
    } else if d == 8 {
        '8'
    } else {
        '9'
    }
}

/// The decimal numeral of `n`, without leading zeros.
pub open spec fn numeral(n: nat) -> Seq<char>
    decreases n,
{
    if n < 10 {
        seq![digit_char(n)]
    } else {
        numeral(n / 10).push(digit_char(n % 10))
    }
}

fn digit_text(d: u64) -> (text: &'static str)
    requires
        d < 10,
    ensures
        text@ == seq![digit_char(d as nat)],
{
    proof {
        reveal_strlit("0");
        reveal_strlit("1");
        reveal_strlit("2");
        reveal_strlit("3");
        reveal_strlit("4");
        reveal_strlit("5");
        reveal_strlit("6");
        reveal_strlit("7");
        reveal_strlit("8");
        reveal_strlit("9");
    }
    let text = if d == 0 {
        "0"
    } else if d == 1 {
        "1"
    } else if d == 2 {
        "2"
    } else if d == 3 {
        "3"
    } else if d == 4 {
        "4"
    } else if d == 5 {
        "5"
    } else if d == 6 {
        "6"
    } else if d == 7 {
        "7"
    } else if d == 8 {
        "8"
    } else {
        "9"
    };
    assert(text@ =~= seq![digit_char(d as nat)]);
    text
}

/// The decimal numeral of `n`.
pub fn decimal(n: u64) -> (text: String)
    ensures
        text@ == numeral(n as nat),
    decreases n,
{
    if n < 10 {
        digit_text(n).to_owned()
    } else {
        let mut text = decimal(n / 10);
        text.append(digit_text(n % 10));
        assert(text@ =~= numeral(n as nat / 10).push(digit_char(n as nat % 10)));
        text
    }
}

/// The line that shows how many of a unit's slots are occupied:
/// the name, a colon, and `occupied/slots`.
pub open spec fn occupancy_line(name: Seq<char>, occupied: nat, slots: nat) -> Seq<char> {
    name + seq![':', ' '] + numeral(occupied) + seq!['/'] + numeral(slots)
}

/// The text of [`occupancy_line`].
pub fn occupancy(name: &str, occupied: usize, slots: usize) -> (text: String)
    ensures
        text@ == occupancy_line(name@, occupied as nat, slots as nat),
{
    proof {
        reveal_strlit(": ");
        reveal_strlit("/");
    }
    let mut text = name.to_owned();
    text.append(": ");
    text.append(decimal(occupied as u64).as_str());
    text.append("/");
    text.append(decimal(slots as u64).as_str());
    assert(text@ =~= occupancy_line(name@, occupied as nat, slots as nat));
    text
}

/// The number that a numeral denotes, read digit by digit.
pub open spec fn value(digits: Seq<char>) -> nat
    decreases digits.len(),
{
    if digits.len() == 0 {
        0
    } else {
        value(digits.drop_last()) * 10 + (digits.last() as u32 - 48) as nat
    }
}

/// The character of a digit has the code of `0` plus the digit.
pub proof fn lemma_digit_code(d: nat)
    requires
        d < 10,
    ensures
        digit_char(d) as u32 == 48 + d,
{
    assert('0' as u32 == 48);
    assert('1' as u32 == 49);
    assert('2' as u32 == 50);
    assert('3' as u32 == 51);
    assert('4' as u32 == 52);
    assert('5' as u32 == 53);
    assert('6' as u32 == 54);
    assert('7' as u32 == 55);
    assert('8' as u32 == 56);
    assert('9' as u32 == 57);
}

/// The numeral of a number denotes that number, so different numbers have
/// different numerals.
pub proof fn lemma_numeral_value(n: nat)
    ensures
        value(numeral(n)) == n,
    decreases n,
{
    let digits = numeral(n);
    if n < 10 {
        lemma_digit_code(n);
        assert(digits.drop_last() =~= Seq::<char>::empty());
        assert(value(digits.drop_last()) == 0);
        assert(digits.last() == digit_char(n));
    } else {
        lemma_numeral_value(n / 10);
        lemma_digit_code(n % 10);
        assert(digits.drop_last() =~= numeral(n / 10));
        assert(digits.last() == digit_char(n % 10));
    }
}

} // verus!
