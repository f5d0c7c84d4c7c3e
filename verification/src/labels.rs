use vstd::prelude::*;
use vstd::string::StringExecFns;

verus! {

/// The character for a single decimal digit.
pub open spec fn digit_char(d: nat) -> char {
    if d == 0 {
        '0'
    } else if d == 1 {
        '1'
    } else if d == 2 {
        '2'
    } else if d == 3 {
        '3'
    } else if d == 4 {
        '4'
    } else if d == 5 {
        '5'
    } else if d == 6 {
        '6'
    } else if d == 7 {
        '7'
    } else if d == 8 {
        '8'
    } else {
        '9'
    }
}

/// The decimal digits of `k`, most significant first.
pub open spec fn spec_digits(k: nat) -> Seq<char>
    decreases k,
{
    if k < 10 {
        seq![digit_char(k)]
    } else {
        spec_digits(k / 10) + seq![digit_char(k % 10)]
    }
}

/// The label of supply row `i`, counted from one: `S` and the decimal
/// digits of `i`.
pub open spec fn spec_supply_label(i: nat) -> Seq<char> {
    seq!['S'] + spec_digits(i)
}

/// The label of demand column `j`, counted from one: `D` and the decimal
/// digits of `j`.
pub open spec fn spec_demand_label(j: nat) -> Seq<char> {
    seq!['D'] + spec_digits(j)
}

/// Decimal digit strings have at least one character.
pub proof fn lemma_digits_len(k: nat)
    ensures
        spec_digits(k).len() >= 1,
        k >= 10 ==> spec_digits(k).len() >= 2,
    decreases k,
{
    if k >= 10 {
        lemma_digits_len(k / 10);
    }
}

/// Distinct numbers have distinct digit strings.
pub proof fn lemma_digits_injective(a: nat, b: nat)
    requires
        spec_digits(a) == spec_digits(b),
    ensures
        a == b,
    decreases a + b,
{
    lemma_digits_len(a);
    lemma_digits_len(b);
    if a < 10 && b < 10 {
        assert(spec_digits(a)[0] == digit_char(a));
        assert(spec_digits(b)[0] == digit_char(b));
    } else if a < 10 && b >= 10 {
        assert(spec_digits(b).len() >= 2);
    } else if a >= 10 && b < 10 {
        assert(spec_digits(a).len() >= 2);
    } else {
        let la = spec_digits(a).len();
        assert(spec_digits(a).last() == digit_char(a % 10));
        assert(spec_digits(b).last() == digit_char(b % 10));
        assert(spec_digits(a).drop_last() =~= spec_digits(a / 10));
        assert(spec_digits(b).drop_last() =~= spec_digits(b / 10));
        assert(spec_digits(a / 10) == spec_digits(b / 10));
        lemma_digits_injective(a / 10, b / 10);
        assert(a % 10 == b % 10) by {
            assert(digit_char(a % 10) == digit_char(b % 10));
        }
        assert(a == (a / 10) * 10 + a % 10) by {
            vstd::arithmetic::div_mod::lemma_fundamental_div_mod(a as int, 10);
        }
        assert(b == (b / 10) * 10 + b % 10) by {
            vstd::arithmetic::div_mod::lemma_fundamental_div_mod(b as int, 10);
        }
    }
}

/// Distinct supply rows get distinct labels.
pub proof fn lemma_supply_label_injective(a: nat, b: nat)
    requires
        spec_supply_label(a) == spec_supply_label(b),
    ensures
        a == b,
{
    assert(spec_supply_label(a).subrange(1, spec_supply_label(a).len() as int) =~= spec_digits(a));
    assert(spec_supply_label(b).subrange(1, spec_supply_label(b).len() as int) =~= spec_digits(b));
    lemma_digits_injective(a, b);
}

/// Distinct demand columns get distinct labels.
pub proof fn lemma_demand_label_injective(a: nat, b: nat)
    requires
        spec_demand_label(a) == spec_demand_label(b),
    ensures
        a == b,
{
    assert(spec_demand_label(a).subrange(1, spec_demand_label(a).len() as int) =~= spec_digits(a));
    assert(spec_demand_label(b).subrange(1, spec_demand_label(b).len() as int) =~= spec_digits(b));
    lemma_digits_injective(a, b);
}

/// A supply label never equals a demand label.
pub proof fn lemma_labels_distinct(a: nat, b: nat)
    ensures
        spec_supply_label(a) != spec_demand_label(b),
{
    assert(spec_supply_label(a)[0] == 'S');
    assert(spec_demand_label(b)[0] == 'D');
}

/// One decimal digit as a string slice.
fn digit_str(d: usize) -> (r: &'static str)
    requires
        d < 10,
    ensures
        r@ == seq![digit_char(d as nat)],
{
    proof {
        reveal_strlit("0");
        reveal_strlit("1");
        reveal_strlit("2");
        reveal_strlit("3");
        reveal_strlit("4");
        reveal_strlit("5");
        reveal_strlit("6");
        reveal_strlit("7");
        reveal_strlit("8");
        reveal_strlit("9");
    }
    let r = match d {
        0 => "0",
        1 => "1",
        2 => "2",
        3 => "3",
        4 => "4",
        5 => "5",
        6 => "6",
        7 => "7",
        8 => "8",
        _ => "9",
    };
    proof {
        assert(r@ =~= seq![digit_char(d as nat)]);
    }
    r
}

/// The decimal digits of `k`, as a string.
fn digits_string(k: usize) -> (r: String)
    ensures
        r@ == spec_digits(k as nat),
    decreases k,
{
    if k < 10 {
        let mut s = String::new();
        s.append(digit_str(k));
        proof {
            assert(s@ =~= spec_digits(k as nat));
        }
        s
    } else {
        let mut s = digits_string(k / 10);
        s.append(digit_str(k % 10));
        proof {
            assert(s@ =~= spec_digits(k as nat));
        }
        s
    }
}

/// The label of supply row `i`, counted from one.
pub fn supply_label(i: usize) -> (r: String)
    ensures
        r@ == spec_supply_label(i as nat),
{
    proof {
        reveal_strlit("S");
    }
    let mut s = String::from_str("S");
    let digits = digits_string(i);
    s.append(digits.as_str());
    proof {
        assert(s@ =~= spec_supply_label(i as nat));
    }
    s
}

/// The label of demand column `j`, counted from one.
pub fn demand_label(j: usize) -> (r: String)
    ensures
        r@ == spec_demand_label(j as nat),
{
    proof {
        reveal_strlit("D");
    }
    let mut s = String::from_str("D");
    let digits = digits_string(j);
    s.append(digits.as_str());
    proof {
        assert(s@ =~= spec_demand_label(j as nat));
    }
    s
}

} // verus!
