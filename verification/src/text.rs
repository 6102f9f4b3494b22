//! Rendering scalar values as text, used to derive pivot output column
//! names from column-key values.
use vstd::prelude::*;
use crate::value::{Value, SpecValue};

verus! {

/// The character of one decimal digit.
pub open spec fn digit_char(d: nat) -> char {
    ((48 + d) as char)
}

/// The decimal digits of `n`, most significant first.
pub open spec fn dec_digits(n: nat) -> Seq<char>
    decreases n,
{
    if n < 10 {
        seq![digit_char(n)]
    } else {
        dec_digits(n / 10).push(digit_char(n % 10))
    }
}

/// The decimal rendering of an integer, with a leading minus when negative.
pub open spec fn int_str(n: int) -> Seq<char> {
    if n < 0 {
        seq!['-'] + dec_digits((-n) as nat)
    } else {
        dec_digits(n as nat)
    }
}

/// The text form of a value: integers in decimal, strings as themselves,
/// booleans as `true` / `false`.
pub open spec fn val_str(v: SpecValue) -> Seq<char> {
    match v {
        SpecValue::Int(n) => int_str(n),
        SpecValue::Str(s) => s,
        SpecValue::Bool(b) => if b {
            "true"@
        } else {
            "false"@
        },
    }
}

fn digit_str(d: u64) -> (s: &'static str)
    requires
        d < 10,
    ensures
        s@ == seq![digit_char(d as nat)],
{
    let s: &'static str = match d {
        0 => "0",
        1 => "1",
        2 => "2",
        3 => "3",
        4 => "4",
        5 => "5",
        6 => "6",
        7 => "7",
        8 => "8",
        _ => "9",
    };
    proof {
        reveal_strlit("0");
        reveal_strlit("1");
        reveal_strlit("2");
        reveal_strlit("3");
        reveal_strlit("4");
        reveal_strlit("5");
        reveal_strlit("6");
        reveal_strlit("7");
        reveal_strlit("8");
        reveal_strlit("9");
        assert(s@ =~= seq![digit_char(d as nat)]);
    }
    s
}

fn u64_string(n: u64) -> (s: String)
    ensures
        s@ == dec_digits(n as nat),
    decreases n,
{
    if n < 10 {
        digit_str(n).to_owned()
    } else {
        let mut s = u64_string(n / 10);
        s.append(digit_str(n % 10));
        proof {
            assert(s@ =~= dec_digits((n / 10) as nat).push(digit_char((n % 10) as nat)));
        }
        s
    }
}

/// Renders a value as text, matching `val_str` exactly.
pub fn value_to_string(v: &Value) -> (s: String)
    ensures
        s@ == val_str(v@),
{
    match v {
        Value::Int(n) => {
            if *n < 0 {
                let m: u64 = ((-(*n + 1)) as u64) + 1;
                proof {
                    assert(m as int == -(*n as int));
                }
                let mut s = String::from_str("-");
                let digits = u64_string(m);
                s.append(digits.as_str());
                proof {
                    reveal_strlit("-");
                    assert("-"@ =~= seq!['-']);
                    assert(s@ =~= seq!['-'] + dec_digits(m as nat));
                }
                s
            } else {
                u64_string(*n as u64)
            }
        },
        Value::Str(st) => st.clone(),
        Value::Bool(b) => {
            if *b {
                "true".to_owned()
            } else {
                "false".to_owned()
            }
        },
    }
}

} // verus!
