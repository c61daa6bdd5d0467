//! Numbers written in decimal.

use vstd::prelude::*;

verus! {

/// The decimal digit of a number below ten.
pub open spec fn digit(n: nat) -> char {
    seq!['0', '1', '2', '3', '4', '5', '6', '7', '8', '9'][n as int]
}

/// A number in decimal, without leading zeros.
pub open spec fn decimal(n: nat) -> Seq<char>
    decreases n,
{
    if n < 10 {
        seq![digit(n)]
    } else {
        decimal(n / 10).push(digit(n % 10))
    }
}

/// The number below ten that a digit stands for.
pub open spec fn digit_value(c: char) -> Option<nat> {
    if '0' <= c <= '9' {
        Some((c as nat - '0' as nat) as nat)
    } else {
        None
    }
}

/// The number that decimal digits stand for.
pub open spec fn number(digits: Seq<char>) -> Option<nat>
    decreases digits.len(),
{
    if digits.len() == 0 {
        Some(0)
    } else {
        match (number(digits.drop_last()), digit_value(digits.last())) {
            (Some(high), Some(low)) => Some(high * 10 + low),
            _ => None,
        }
    }
}

pub proof fn lemma_digit(n: nat)
    requires
        n < 10,
    ensures
        digit_value(digit(n)) == Some(n),
{
}

/// Reading a number back from its digits gives the number.
pub proof fn law_decimal_reads_back(n: nat)
    ensures
        number(decimal(n)) == Some(n),
        decimal(n).len() > 0,
    decreases n,
{
    if n < 10 {
        lemma_digit(n);
        assert(decimal(n).drop_last() =~= Seq::empty());
        assert(number(Seq::<char>::empty()) == Some(0nat));
    } else {
        law_decimal_reads_back(n / 10);
        lemma_digit(n % 10);
        assert(decimal(n).drop_last() =~= decimal(n / 10));
    }
}

fn digit_text(n: u64) -> (text: &'static str)
    requires
        n < 10,
    ensures
        text@ == seq![digit(n as nat)],
{
    proof {
        reveal_strlit("0");
        reveal_strlit("1");
        reveal_strlit("2");
        reveal_strlit("3");
        reveal_strlit("4");
        reveal_strlit("5");
        reveal_strlit("6");
        reveal_strlit("7");
        reveal_strlit("8");
        reveal_strlit("9");
    }
    let text = match n {
        0 => "0",
        1 => "1",
        2 => "2",
        3 => "3",
        4 => "4",
        5 => "5",
        6 => "6",
        7 => "7",
        8 => "8",
        _ => "9",
    };
    proof {
        assert(text@ =~= seq![digit(n as nat)]);
    }
    text
}

/// `n` in decimal.
pub fn decimal_text(n: u64) -> (text: String)
    ensures
        text@ == decimal(n as nat),
    decreases n,
{
    if n < 10 {
        let mut text = String::new();
        text.append(digit_text(n));
        proof {
            assert(text@ =~= seq![digit(n as nat)]);
        }
        return text;
    }
    let mut text = decimal_text(n / 10);
    let ghost high = text@;
    text.append(digit_text(n % 10));
    proof {
        assert(text@ =~= high.push(digit((n % 10) as nat)));
    }
    text
}

/// Reads a number in decimal. `None` when `text` holds anything but digits,
/// or a number too large.
pub fn parse_decimal(text: &str, max: u64) -> (value: Option<u64>)
    ensures
        match number(text@) {
            Some(n) => if n <= max && text@.len() > 0 {
                value == Some(n as u64)
            } else {
                value is None
            },
            None => value is None,
        },
{
    let n: usize = text.unicode_len();
    if n == 0 {
        return None;
    }
    let mut value: u64 = 0;
    let mut i: usize = 0;
    proof {
        assert(text@.take(0) =~= Seq::empty());
    }
    while i < n
        invariant
            n == text@.len(),
            i <= n,
            value <= max,
            number(text@.take(i as int)) == Some(value as nat),
        decreases n - i,
    {
        let c: char = text.get_char(i);
        proof {
            assert(text@.take(i + 1).drop_last() =~= text@.take(i as int));
            assert(text@.take(i + 1).last() == c);
        }
        if c < '0' || c > '9' {
            proof {
                lemma_stays_wrong(text@, i + 1);
            }
            return None;
        }
        let low: u64 = c as u64 - '0' as u64;
        proof {
            assert(digit_value(c) == Some(low as nat));
            if value * 10 + low > max {
                lemma_stays_large(text@, i + 1, max as nat);
            }
        }
        if low > max || value > max / 10 || value * 10 > max - low {
            return None;
        }
        value = value * 10 + low;
        i = i + 1;
    }
    proof {
        assert(text@.take(i as int) =~= text@);
    }
    Some(value)
}

proof fn lemma_stays_wrong(text: Seq<char>, upto: int)
    requires
        0 <= upto <= text.len(),
        number(text.take(upto)) is None,
    ensures
        number(text) is None,
    decreases text.len() - upto,
{
    if upto < text.len() {
        assert(text.take(upto + 1).drop_last() =~= text.take(upto));
        lemma_stays_wrong(text, upto + 1);
    } else {
        assert(text.take(upto) =~= text);
    }
}

proof fn lemma_stays_large(text: Seq<char>, upto: int, max: nat)
    requires
        0 <= upto <= text.len(),
        number(text.take(upto)) matches Some(n) ==> n > max,
    ensures
        number(text) matches Some(n) ==> n > max,
    decreases text.len() - upto,
{
    if upto < text.len() {
        assert(text.take(upto + 1).drop_last() =~= text.take(upto));
        lemma_stays_large(text, upto + 1, max);
    } else {
        assert(text.take(upto) =~= text);
    }
}

} // verus!
