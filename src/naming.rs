use vstd::prelude::*;
use vstd::string::StringExecFns;
use crate::model::{decimal, digit, suffixed};

verus! {

/// The one-character text of the decimal digit `d`.
fn digit_text(d: usize) -> (r: &'static str)
    requires
        d < 10,
    ensures
        r@ == seq![digit(d as nat)],
{
    if d == 0 {
        proof {
            reveal_strlit("0");
        }
        assert("0"@ =~= seq![digit(0)]);
        "0"
    } else if d == 1 {
        proof {
            reveal_strlit("1");
        }
        assert("1"@ =~= seq![digit(1)]);
        "1"
    } else if d == 2 {
        proof {
            reveal_strlit("2");
        }
        assert("2"@ =~= seq![digit(2)]);
        "2"
    } else if d == 3 {
        proof {
            reveal_strlit("3");
        }
        assert("3"@ =~= seq![digit(3)]);
        "3"
    } else if d == 4 {
        proof {
            reveal_strlit("4");
        }
        assert("4"@ =~= seq![digit(4)]);
        "4"
    } else if d == 5 {
        proof {
            reveal_strlit("5");
        }
        assert("5"@ =~= seq![digit(5)]);
        "5"
    } else if d == 6 {
        proof {
            reveal_strlit("6");
        }
        assert("6"@ =~= seq![digit(6)]);
        "6"
    } else if d == 7 {
        proof {
            reveal_strlit("7");
        }
        assert("7"@ =~= seq![digit(7)]);
        "7"
    } else if d == 8 {
        proof {
            reveal_strlit("8");
        }
        assert("8"@ =~= seq![digit(8)]);
        "8"
    } else {
        proof {
            reveal_strlit("9");
        }
        assert("9"@ =~= seq![digit(9)]);
        "9"
    }
}

/// `k` written in decimal, without leading zeros.
pub fn decimal_text(k: usize) -> (r: String)
    ensures
        r@ == decimal(k as nat),
    decreases k,
{
    if k < 10 {
        String::from_str(digit_text(k))
    } else {
        let mut r = decimal_text(k / 10);
        r.append(digit_text(k % 10));
        r
    }
}

/// `base` followed by ` (k)`: the name of a later occurrence of a repeated
/// controller name.
pub fn suffixed_name(base: &String, k: usize) -> (r: String)
    ensures
        r@ == suffixed(base@, k as nat),
{
    let digits = decimal_text(k);
    let mut r = base.clone();
    r.append(" (");
    r.append(digits.as_str());
    r.append(")");
    proof {
        reveal_strlit(" (");
        reveal_strlit(")");
    }
    assert(r@ =~= suffixed(base@, k as nat));
    r
}

} // verus!
