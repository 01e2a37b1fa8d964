//! Decimal text of integers, and the rule for refreshing a text node.
use vstd::prelude::*;
use vstd::string::StringExecFns;

verus! {

/// The digit character for `d` (0 to 9).
pub open spec fn digit_char(d: nat) -> char {
    (('0' as int) + d) as char
}

/// The decimal digits of `n`, most significant first, without leading
/// zeros (a single `0` for zero).
pub open spec fn digits(n: nat) -> Seq<char>
    decreases n,
{
    if n < 10 {
        seq![digit_char(n)]
    } else {
        digits(n / 10).push(digit_char(n % 10))
    }
}

/// The decimal text of `n`, with a leading `-` where it is negative.
pub open spec fn decimal(n: int) -> Seq<char> {
    if n < 0 {
        seq!['-'] + digits((-n) as nat)
    } else {
        digits(n as nat)
    }
}

/// The digit `d` (0 to 9) as text.
fn digit_str(d: u32) -> (s: &'static str)
    requires
        d < 10,
    ensures
        s@ == seq![digit_char(d as nat)],
{
    proof {
        reveal_strlit("0");
        reveal_strlit("1");
        reveal_strlit("2");
        reveal_strlit("3");
        reveal_strlit("4");
        reveal_strlit("5");
        reveal_strlit("6");
        reveal_strlit("7");
        reveal_strlit("8");
        reveal_strlit("9");
    }
    match d {
        0 => "0",
        1 => "1",
        2 => "2",
        3 => "3",
        4 => "4",
        5 => "5",
        6 => "6",
        7 => "7",
        8 => "8",
        _ => "9",
    }
}

/// The decimal digits of `n`.
fn digits_text(n: u32) -> (s: String)
    ensures
        s@ == digits(n as nat),
    decreases n,
{
    if n < 10 {
        String::from_str(digit_str(n))
    } else {
        let mut s = digits_text(n / 10);
        s.append(digit_str(n % 10));
        s
    }
}

/// The decimal text of `x`, as `x.to_string()` gives it.
pub(crate) fn i32_text(x: i32) -> (s: String)
    ensures
        s@ == decimal(x as int),
{
    if x < 0 {
        let m: u32 = (0i64 - x as i64) as u32;
        let mut s = String::from_str("-");
        proof {
            reveal_strlit("-");
        }
        let d = digits_text(m);
        s.append(d.as_str());
        s
    } else {
        digits_text(x as u32)
    }
}

/// The decimal text of `x`, as `x.to_string()` gives it.
pub(crate) fn u32_text(x: u32) -> (s: String)
    ensures
        s@ == decimal(x as int),
{
    digits_text(x)
}

/// What a text node showing `old_data` is to be set to when its content is
/// to be `new_data`: nothing where the two already agree.
pub fn update_text_node(new_data: String, old_data: &String) -> (r: Option<String>)
    ensures
        r == if new_data@ == old_data@ {
            None::<String>
        } else {
            Some(new_data)
        },
{
    if new_data == *old_data {
        None
    } else {
        Some(new_data)
    }
}

} // verus!
