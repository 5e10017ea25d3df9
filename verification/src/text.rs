//! Decimal names.

use vstd::prelude::*;
use vstd::string::{StrSliceExecFns, StringExecFns};

verus! {

/// Character of a decimal digit.
pub open spec fn digit_char(d: nat) -> char {
    (48 + d) as char
}

/// Decimal digits of `n`.
pub open spec fn digits(n: nat) -> Seq<char>
    decreases n,
{
    if n < 10 {
        seq![digit_char(n)]
    } else {
        digits(n / 10).push(digit_char(n % 10))
    }
}

/// Decimal digits of `n`, with zeros in front up to `width` characters.
pub open spec fn padded(n: nat, width: nat) -> Seq<char> {
    let plain = digits(n);
    if plain.len() >= width {
        plain
    } else {
        Seq::new((width - plain.len()) as nat, |i: int| '0') + plain
    }
}

/// Value of a string of decimal digits.
pub open spec fn decimal_value(s: Seq<char>) -> nat
    decreases s.len(),
{
    if s.len() == 0 {
        0
    } else {
        (10 * decimal_value(s.drop_last()) + (s.last() as nat - 48)) as nat
    }
}

proof fn digits_spell(n: nat)
    ensures
        decimal_value(digits(n)) == n,
        digits(n).len() > 0,
    decreases n,
{
    reveal_with_fuel(decimal_value, 2);
    if n < 10 {
        assert(digits(n).drop_last() =~= Seq::<char>::empty());
    } else {
        digits_spell(n / 10);
        assert(digits(n).drop_last() =~= digits(n / 10));
    }
}

proof fn zeros_weigh_nothing(k: nat, s: Seq<char>)
    ensures
        decimal_value(Seq::new(k, |i: int| '0') + s) == decimal_value(s),
    decreases k + s.len(),
{
    let all = Seq::new(k, |i: int| '0') + s;
    if s.len() > 0 {
        zeros_weigh_nothing(k, s.drop_last());
        assert(all.drop_last() =~= Seq::new(k, |i: int| '0') + s.drop_last());
    } else if k > 0 {
        zeros_weigh_nothing((k - 1) as nat, s);
        assert(all.drop_last() =~= Seq::new((k - 1) as nat, |i: int| '0') + s);
    } else {
        assert(all =~= s);
    }
}

/// Different numbers have different padded names.
pub proof fn padded_is_injective(a: nat, b: nat, width: nat)
    requires
        padded(a, width) == padded(b, width),
    ensures
        a == b,
{
    digits_spell(a);
    digits_spell(b);
    if digits(a).len() < width {
        zeros_weigh_nothing((width - digits(a).len()) as nat, digits(a));
    }
    if digits(b).len() < width {
        zeros_weigh_nothing((width - digits(b).len()) as nat, digits(b));
    }
}

/// A padded name spells its number in decimal digits, and is at least as long as wanted; one that
/// is longer than the number itself begins with zeros.
pub proof fn padded_names_spell_their_number(n: nat, width: nat)
    ensures
        decimal_value(padded(n, width)) == n,
        padded(n, width).len() >= width,
        padded(n, width).len() > width ==> padded(n, width) == digits(n),
        forall|i: int|
            0 <= i < padded(n, width).len() - digits(n).len() ==> #[trigger] padded(n, width)[i]
                == '0',
{
    digits_spell(n);
    if digits(n).len() < width {
        zeros_weigh_nothing((width - digits(n).len()) as nat, digits(n));
    }
}

fn digit(d: u64) -> (s: &'static str)
    requires
        d < 10,
    ensures
        s@ == seq![digit_char(d as nat)],
{
    proof {
        reveal_strlit("0");
        reveal_strlit("1");
        reveal_strlit("2");
        reveal_strlit("3");
        reveal_strlit("4");
        reveal_strlit("5");
        reveal_strlit("6");
        reveal_strlit("7");
        reveal_strlit("8");
        reveal_strlit("9");
    }
    let s = if d == 0 {
        "0"
    } else if d == 1 {
        "1"
    } else if d == 2 {
        "2"
    } else if d == 3 {
        "3"
    } else if d == 4 {
        "4"
    } else if d == 5 {
        "5"
    } else if d == 6 {
        "6"
    } else if d == 7 {
        "7"
    } else if d == 8 {
        "8"
    } else {
        "9"
    };
    assert(s@ =~= seq![digit_char(d as nat)]);
    s
}

/// Spells `n` in decimal.
pub fn decimal(n: u64) -> (s: String)
    ensures
        s@ == digits(n as nat),
    decreases n,
{
    if n < 10 {
        String::from_str(digit(n))
    } else {
        let mut s = decimal(n / 10);
        let ghost head = s@;
        s.append(digit(n % 10));
        assert(s@ =~= head.push(digit_char((n % 10) as nat)));
        s
    }
}

/// `prefix` followed by `n` in decimal, padded with zeros to `width` digits.
pub fn numbered(prefix: &str, n: u64, width: usize) -> (s: String)
    ensures
        s@ == prefix@ + padded(n as nat, width as nat),
{
    let plain = decimal(n);
    let len: usize = plain.as_str().unicode_len();
    let mut s = String::from_str(prefix);
    let mut k: usize = len;
    while k < width
        invariant
            len <= k,
            k <= width || k == len,
            len == plain@.len(),
            s@ == prefix@ + Seq::new((k - len) as nat, |i: int| '0'),
        decreases width - k,
    {
        let ghost before = s@;
        proof {
            reveal_strlit("0");
        }
        s.append("0");
        assert(s@ =~= prefix@ + Seq::new((k + 1 - len) as nat, |i: int| '0'));
        k += 1;
    }
    s.append(plain.as_str());
    assert(s@ =~= prefix@ + padded(n as nat, width as nat));
    s
}

/// Whether `s` begins with `prefix`.
pub open spec fn begins_with(s: Seq<char>, prefix: Seq<char>) -> bool {
    s.len() >= prefix.len() && s.take(prefix.len() as int) == prefix
}

/// Whether `s` begins with `prefix`.
pub fn has_prefix(s: &str, prefix: &str) -> (yes: bool)
    ensures
        yes == begins_with(s@, prefix@),
{
    let n: usize = prefix.unicode_len();
    if s.unicode_len() < n {
        return false;
    }
    let mut i: usize = 0;
    while i < n
        invariant
            i <= n,
            n == prefix@.len(),
            n <= s@.len(),
            forall|j: int| 0 <= j < i ==> s@[j] == prefix@[j],
        decreases n - i,
    {
        if s.get_char(i) != prefix.get_char(i) {
            assert(s@.take(n as int)[i as int] != prefix@[i as int]);
            return false;
        }
        i += 1;
    }
    assert(s@.take(n as int) =~= prefix@);
    true
}

} // verus!
