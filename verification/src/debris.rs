//! Naming of the fragments a breakup releases.

use vstd::prelude::*;

verus! {

/// Decimal digit character for `d` (0 to 9).
pub open spec fn digit_char(d: nat) -> char {
    (48 + d) as char
}

/// Decimal spelling of `n`, without leading zeros.
pub open spec fn decimal(n: nat) -> Seq<char>
    decreases n,
{
    if n < 10 {
        seq![digit_char(n)]
    } else {
        decimal(n / 10).push(digit_char(n % 10))
    }
}

fn digit_str(d: u64) -> (r: &'static str)
    requires
        d < 10,
    ensures
        r@ == seq![digit_char(d as nat)],
{
    proof {
        reveal_strlit("0");
        reveal_strlit("1");
        reveal_strlit("2");
        reveal_strlit("3");
        reveal_strlit("4");
        reveal_strlit("5");
        reveal_strlit("6");
        reveal_strlit("7");
        reveal_strlit("8");
        reveal_strlit("9");
    }
    let r = if d == 0 {
        "0"
    } else if d == 1 {
        "1"
    } else if d == 2 {
        "2"
    } else if d == 3 {
        "3"
    } else if d == 4 {
        "4"
    } else if d == 5 {
        "5"
    } else if d == 6 {
        "6"
    } else if d == 7 {
        "7"
    } else if d == 8 {
        "8"
    } else {
        "9"
    };
    assert(r@ =~= seq![digit_char(d as nat)]);
    r
}

/// Value of a string of decimal digit characters.
pub open spec fn digits_of_chars(c: Seq<char>) -> int
    decreases c.len(),
{
    if c.len() == 0 {
        0
    } else {
        digits_of_chars(c.drop_last()) * 10 + (c.last() as int - 48)
    }
}

/// The decimal spelling of a number reads back as that number: it is made
/// of the characters '0' to '9', starts with '0' only for zero, and its
/// digits have the number's value.
pub proof fn lemma_decimal_reads_back(n: nat)
    ensures
        decimal(n).len() >= 1,
        forall|k: int| 0 <= k < decimal(n).len() ==> '0' <= #[trigger] decimal(n)[k] <= '9',
        decimal(n)[0] == '0' ==> n == 0,
        digits_of_chars(decimal(n)) == n,
    decreases n,
{
    if n >= 10 {
        lemma_decimal_reads_back(n / 10);
        let d = decimal(n);
        assert(d == decimal(n / 10).push(digit_char(n % 10)));
        assert(d.drop_last() =~= decimal(n / 10));
        assert(d.last() == digit_char((n % 10) as nat));
        assert(digit_char((n % 10) as nat) as int == 48 + n % 10);
        assert(digits_of_chars(d) == digits_of_chars(d.drop_last()) * 10 + (d.last() as int - 48));
        assert(digits_of_chars(d.drop_last()) == n / 10);
        assert(n == (n / 10) * 10 + n % 10);
        assert(d[0] == decimal(n / 10)[0]);
        assert forall|k: int| 0 <= k < d.len() implies '0' <= #[trigger] d[k] <= '9' by {
            if k < d.len() - 1 {
                assert(d[k] == decimal(n / 10)[k]);
            }
        }
    } else {
        assert(decimal(n).drop_last() =~= Seq::<char>::empty());
        assert(digit_char(n) as int == 48 + n);
        assert(decimal(n).last() == digit_char(n));
        assert(digits_of_chars(decimal(n)) == digits_of_chars(decimal(n).drop_last()) * 10 + (decimal(n).last() as int - 48));
    }
}

/// Appends the decimal spelling of `n` to `s`.
pub fn push_decimal(s: &mut String, n: u64)
    ensures
        final(s)@ == old(s)@ + decimal(n as nat),
    decreases n,
{
    if n >= 10 {
        push_decimal(s, n / 10);
    }
    let d = digit_str(n % 10);
    s.append(d);
    assert(s@ =~= old(s)@ + decimal(n as nat));
}

/// Generator of the fragment clouds released by breakups.
pub struct DebrisGen;

impl DebrisGen {
    /// Name of fragment `index` of the body with id `parent_id`: "DEB-<parent_id>-<index>".
    pub fn fragment_name(parent_id: u64, index: u64) -> (r: String)
        ensures
            r@ == "DEB-"@ + decimal(parent_id as nat) + "-"@ + decimal(index as nat),
    {
        let mut s = String::from_str("DEB-");
        push_decimal(&mut s, parent_id);
        s.append("-");
        push_decimal(&mut s, index);
        s
    }

    /// Name given to the fragments of a satellite broken up in a cascade:
    /// "<name> FRAG".
    pub fn cascade_fragment_name(name: &str) -> (r: String)
        ensures
            r@ == name@ + " FRAG"@,
    {
        let mut s = String::from_str(name);
        s.append(" FRAG");
        s
    }
}

} // verus!
