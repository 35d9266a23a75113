//! Fixed-width rendering of counts and line numbers.
use vstd::prelude::*;
use vstd::string::StringExecFns;

verus! {

/// The character for one decimal digit.
pub open spec fn digit(d: nat) -> char
    recommends
        d < 10,
{
    (48 + d) as char
}

/// The decimal numeral of `n`, without leading zeros.
pub open spec fn decimal(n: nat) -> Seq<char>
    decreases n,
{
    if n < 10 {
        seq![digit(n)]
    } else {
        decimal(n / 10).push(digit(n % 10))
    }
}

/// `count` spaces.
pub open spec fn spaces(count: nat) -> Seq<char> {
    Seq::new(count, |i: int| ' ')
}

/// `s` moved to the right edge of a field of `width` characters. A text
/// that is wider than the field is left as it is.
pub open spec fn right_justified(s: Seq<char>, width: nat) -> Seq<char> {
    if s.len() >= width {
        s
    } else {
        spaces((width - s.len()) as nat) + s
    }
}

/// `n` as a decimal numeral at the right edge of a field of `width`
/// characters.
pub open spec fn numeral(n: nat, width: nat) -> Seq<char> {
    right_justified(decimal(n), width)
}

fn digit_text(d: u8) -> (text: &'static str)
    requires
        d < 10,
    ensures
        text@ == seq![digit(d as nat)],
{
    proof {
        reveal_strlit("0");
        reveal_strlit("1");
        reveal_strlit("2");
        reveal_strlit("3");
        reveal_strlit("4");
        reveal_strlit("5");
        reveal_strlit("6");
        reveal_strlit("7");
        reveal_strlit("8");
        reveal_strlit("9");
    }
    let text = if d == 0 {
        "0"
    } else if d == 1 {
        "1"
    } else if d == 2 {
        "2"
    } else if d == 3 {
        "3"
    } else if d == 4 {
        "4"
    } else if d == 5 {
        "5"
    } else if d == 6 {
        "6"
    } else if d == 7 {
        "7"
    } else if d == 8 {
        "8"
    } else {
        "9"
    };
    assert(text@ =~= seq![digit(d as nat)]);
    text
}

/// The decimal numeral of `value`.
pub fn decimal_text(value: u128) -> (text: String)
    ensures
        text@ == decimal(value as nat),
{
    let mut text = String::from_str(digit_text((value % 10) as u8));
    let mut rest = value / 10;
    while rest > 0
        invariant
            decimal(value as nat) == if rest > 0 {
                decimal(rest as nat) + text@
            } else {
                text@
            },
        decreases rest,
    {
        let low = String::from_str(digit_text((rest % 10) as u8));
        proof {
            let ghost next = (rest / 10) as nat;
            if rest >= 10 {
                assert(decimal(rest as nat) + text@ =~= decimal(next) + (low@ + text@));
            } else {
                assert(decimal(rest as nat) + text@ =~= low@ + text@);
            }
        }
        text = low.concat(text.as_str());
        rest = rest / 10;
    }
    text
}

/// `value` in decimal, right-justified in a field of `width` characters.
pub fn format_number(value: u128, width: usize) -> (text: String)
    ensures
        text@ == numeral(value as nat, width as nat),
{
    let digits = decimal_text(value);
    let len = digits.as_str().unicode_len();
    let mut text = String::new();
    let mut filled = len;
    while filled < width
        invariant
            len <= filled,
            filled <= width || filled == len,
            text@ == spaces((filled - len) as nat),
        decreases width - filled,
    {
        proof {
            reveal_strlit(" ");
        }
        text.append(" ");
        filled = filled + 1;
        assert(text@ =~= spaces((filled - len) as nat));
    }
    text.append(digits.as_str());
    assert(text@ =~= numeral(value as nat, width as nat));
    text
}

} // verus!
