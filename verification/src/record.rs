//! The annotated record of a line: its entropy to four decimals, then its text.

use crate::value::{ten_thousandths, EntropyValue, SCALE};
use vstd::prelude::*;
use vstd::string::*;

verus! {

/// The character of a decimal digit.
pub open spec fn digit_char(digit: nat) -> char
    recommends
        digit < 10,
{
    (digit + 48) as char
}

/// `n` in decimal, without leading zeros.
pub open spec fn decimal_digits(n: nat) -> Seq<char>
    decreases n,
{
    if n < 10 {
        seq![digit_char(n)]
    } else {
        decimal_digits(n / 10).push(digit_char(n % 10))
    }
}

/// The four decimals of a number of ten-thousandths below one.
pub open spec fn fraction_digits(part: nat) -> Seq<char>
    recommends
        part < SCALE,
{
    seq![
        digit_char(part / 1000 % 10),
        digit_char(part / 100 % 10),
        digit_char(part / 10 % 10),
        digit_char(part % 10),
    ]
}

/// A number of ten-thousandths as text: the integer part, a point, four
/// decimals.
pub open spec fn scaled_text(scaled: nat) -> Seq<char> {
    decimal_digits(scaled / (SCALE as nat)).push('.') + fraction_digits(scaled % (SCALE as nat))
}

/// The record of `line` for an entropy of `scaled` ten-thousandths. The line
/// follows as it is: nothing in it is escaped or cut.
pub open spec fn record_text(line: Seq<char>, scaled: nat) -> Seq<char> {
    "Entropy: "@ + scaled_text(scaled) + " | String: "@ + line
}

/// The text of one decimal digit.
fn digit_text(digit: u64) -> (text: &'static str)
    requires
        digit < 10,
    ensures
        text@ == seq![digit_char(digit as nat)],
{
    proof {
        reveal_strlit("0");
        reveal_strlit("1");
        reveal_strlit("2");
        reveal_strlit("3");
        reveal_strlit("4");
        reveal_strlit("5");
        reveal_strlit("6");
        reveal_strlit("7");
        reveal_strlit("8");
        reveal_strlit("9");
    }
    let text: &'static str = if digit == 0 {
        "0"
    } else if digit == 1 {
        "1"
    } else if digit == 2 {
        "2"
    } else if digit == 3 {
        "3"
    } else if digit == 4 {
        "4"
    } else if digit == 5 {
        "5"
    } else if digit == 6 {
        "6"
    } else if digit == 7 {
        "7"
    } else if digit == 8 {
        "8"
    } else {
        "9"
    };
    proof {
        assert(text@ =~= seq![digit_char(digit as nat)]);
    }
    text
}

/// Appends `n` in decimal to `out`.
fn append_decimal(out: &mut String, n: u64)
    ensures
        final(out)@ == old(out)@ + decimal_digits(n as nat),
    decreases n,
{
    if n >= 10 {
        append_decimal(out, n / 10);
    }
    out.append(digit_text(n % 10));
    proof {
        assert(out@ =~= old(out)@ + decimal_digits(n as nat));
    }
}

/// The record of a line in test mode: `Entropy: `, the entropy rounded to four
/// decimals, ` | String: `, and the line as it is.
pub fn test_entropy(s: &str, entropy: EntropyValue) -> (record: String)
    requires
        entropy.wf(),
    ensures
        record@ == record_text(s@, ten_thousandths(entropy.bits())),
{
    let scaled: u64 = entropy.ten_thousandths();
    let part: u64 = scaled % SCALE;
    let mut record: String = String::from_str("Entropy: ");
    append_decimal(&mut record, scaled / SCALE);
    proof {
        reveal_strlit(".");
    }
    record.append(".");
    record.append(digit_text(part / 1000 % 10));
    record.append(digit_text(part / 100 % 10));
    record.append(digit_text(part / 10 % 10));
    record.append(digit_text(part % 10));
    record.append(" | String: ");
    record.append(s);
    proof {
        assert(record@ =~= record_text(s@, scaled as nat));
    }
    record
}

} // verus!
