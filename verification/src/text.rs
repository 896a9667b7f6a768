//! Small helpers for strings and lists of strings.

use vstd::prelude::*;
use vstd::string::*;

verus! {

/// The character sequences of a list of strings, in their order.
pub open spec fn views(strings: Seq<String>) -> Seq<Seq<char>> {
    Seq::new(strings.len(), |i: int| strings[i]@)
}

/// `items` one after the other, with `separator` between them.
pub open spec fn joined(items: Seq<Seq<char>>, separator: Seq<char>) -> Seq<char>
    decreases items.len(),
{
    if items.len() == 0 {
        Seq::empty()
    } else if items.len() == 1 {
        items[0]
    } else {
        joined(items.drop_last(), separator) + separator + items.last()
    }
}

/// Joins `items` with `separator` between them.
pub fn join(items: &Vec<String>, separator: &str) -> (text: String)
    ensures
        text@ == joined(views(items@), separator@),
{
    let ghost all = views(items@);
    let mut text = String::new();
    let mut i: usize = 0;
    assert(all.take(0) =~= Seq::empty());
    while i < items.len()
        invariant
            i <= items.len(),
            all == views(items@),
            text@ == joined(all.take(i as int), separator@),
        decreases items.len() - i,
    {
        assert(all.take(i + 1).drop_last() =~= all.take(i as int));
        assert(all.take(i + 1).last() == items[i as int]@);
        if i > 0 {
            text.append(separator);
        } else {
            assert(text@ + items[i as int]@ =~= items[i as int]@);
            assert(all.take(1)[0] == items[0]@);
        }
        text.append(items[i].as_str());
        i += 1;
    }
    assert(all.take(i as int) =~= all);
    text
}

/// The decimal digit for a value under 10.
pub open spec fn decimal_digit(value: int) -> char {
    if value == 0 {
        '0'
    } else if value == 1 {
        '1'
    } else if value == 2 {
        '2'
    } else if value == 3 {
        '3'
    } else if value == 4 {
        '4'
    } else if value == 5 {
        '5'
    } else if value == 6 {
        '6'
    } else if value == 7 {
        '7'
    } else if value == 8 {
        '8'
    } else {
        '9'
    }
}

/// `value` in decimal, without leading zeros.
pub open spec fn decimal(value: nat) -> Seq<char>
    decreases value,
{
    if value < 10 {
        seq![decimal_digit(value as int)]
    } else {
        decimal(value / 10).push(decimal_digit((value % 10) as int))
    }
}

/// `value` in decimal, with a minus sign where it is negative.
pub open spec fn signed_decimal(value: int) -> Seq<char> {
    if value < 0 {
        seq!['-'] + decimal((-value) as nat)
    } else {
        decimal(value as nat)
    }
}

/// The decimal digit for `value`, which is under 10, as a text.
fn digit(value: u8) -> (text: &'static str)
    requires
        value < 10,
    ensures
        text@ == seq![decimal_digit(value as int)],
{
    proof {
        reveal_strlit("0");
        reveal_strlit("1");
        reveal_strlit("2");
        reveal_strlit("3");
        reveal_strlit("4");
        reveal_strlit("5");
        reveal_strlit("6");
        reveal_strlit("7");
        reveal_strlit("8");
        reveal_strlit("9");
    }
    let text = if value == 0 {
        "0"
    } else if value == 1 {
        "1"
    } else if value == 2 {
        "2"
    } else if value == 3 {
        "3"
    } else if value == 4 {
        "4"
    } else if value == 5 {
        "5"
    } else if value == 6 {
        "6"
    } else if value == 7 {
        "7"
    } else if value == 8 {
        "8"
    } else {
        "9"
    };
    assert(text@ =~= seq![decimal_digit(value as int)]);
    text
}

/// Writes `value` in decimal.
pub fn u64_to_decimal(value: u64) -> (text: String)
    ensures
        text@ == decimal(value as nat),
{
    let mut digits: Vec<u8> = Vec::new();
    let mut rest = value;
    while rest >= 10
        invariant
            forall|k: int| 0 <= k < digits.len() ==> digits[k] < 10,
            decimal(value as nat) == decimal(rest as nat) + Seq::new(
                digits.len() as nat,
                |k: int| decimal_digit(digits[digits.len() - 1 - k] as int),
            ),
        decreases rest,
    {
        let ghost before = Seq::new(
            digits.len() as nat,
            |k: int| decimal_digit(digits[digits.len() - 1 - k] as int),
        );
        let ghost old_digits = digits@;
        digits.push((rest % 10) as u8);
        assert(Seq::new(
            digits.len() as nat,
            |k: int| decimal_digit(digits[digits.len() - 1 - k] as int),
        ) =~= seq![decimal_digit((rest % 10) as int)] + before);
        assert(decimal(rest as nat) + before =~= decimal((rest / 10) as nat) + (seq![
            decimal_digit((rest % 10) as int),
        ] + before));
        rest = rest / 10;
    }
    let mut text = digit(rest as u8).to_owned();
    let ghost tail = Seq::new(
        digits.len() as nat,
        |k: int| decimal_digit(digits[digits.len() - 1 - k] as int),
    );
    let mut i: usize = digits.len();
    assert(text@ =~= decimal(rest as nat) + tail.take(0));
    while i > 0
        invariant
            i <= digits.len(),
            forall|k: int| 0 <= k < digits.len() ==> digits[k] < 10,
            tail == Seq::new(
                digits.len() as nat,
                |k: int| decimal_digit(digits[digits.len() - 1 - k] as int),
            ),
            text@ == decimal(rest as nat) + tail.take(digits.len() - i),
        decreases i,
    {
        i -= 1;
        text.append(digit(digits[i]));
        assert(tail.take(digits.len() - i) =~= tail.take(digits.len() - i - 1) + seq![
            decimal_digit(digits[i as int] as int),
        ]);
    }
    assert(tail.take(digits.len() as int) =~= tail);
    text
}

/// Writes `value` in decimal, with a minus sign where it is negative.
pub fn i64_to_decimal(value: i64) -> (text: String)
    ensures
        text@ == signed_decimal(value as int),
{
    if value < 0 {
        let size: u64 = if value == i64::MIN {
            9_223_372_036_854_775_808
        } else {
            (-value) as u64
        };
        proof {
            reveal_strlit("-");
        }
        let mut text = "-".to_owned();
        let digits = u64_to_decimal(size);
        text.append(digits.as_str());
        assert(text@ =~= seq!['-'] + decimal((-value) as nat));
        text
    } else {
        u64_to_decimal(value as u64)
    }
}

} // verus!
