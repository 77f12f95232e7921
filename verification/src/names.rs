//! Interface names: the reserved prefix followed by a decimal number.

use vstd::prelude::*;
use vstd::string::*;

verus! {

/// The character that writes the digit `d`.
pub open spec fn digit_char(d: nat) -> char
    recommends
        d < 10,
{
    ((48 + d) as u8) as char
}

/// Whether a character is one of the ten digits.
pub open spec fn is_digit(c: char) -> bool {
    48 <= c as u32 <= 57
}

/// The value of a digit character.
pub open spec fn digit_value(c: char) -> nat
    recommends
        is_digit(c),
{
    (c as u32 - 48) as nat
}

/// The decimal digits of `n`, most significant first, without leading zeros.
pub open spec fn decimal(n: nat) -> Seq<char>
    decreases n,
{
    if n < 10 {
        seq![digit_char(n)]
    } else {
        decimal(n / 10).push(digit_char(n % 10))
    }
}

/// The number that a sequence of digits writes in base ten.
pub open spec fn decimal_value(s: Seq<char>) -> nat
    decreases s.len(),
{
    if s.len() == 0 {
        0
    } else {
        decimal_value(s.drop_last()) * 10 + digit_value(s.last())
    }
}

/// Whether a sequence holds digits only.
pub open spec fn all_digits(s: Seq<char>) -> bool {
    forall|i: int| 0 <= i < s.len() ==> is_digit(#[trigger] s[i])
}

/// The prefix that marks an interface as managed.
pub open spec fn managed_prefix() -> Seq<char> {
    seq!['v', 'p', 's']
}

/// Whether a name begins with the prefix.
pub open spec fn has_managed_prefix(name: Seq<char>) -> bool {
    name.len() >= 3 && name[0] == 'v' && name[1] == 'p' && name[2] == 's'
}

/// The name given to the interface numbered `n`.
pub open spec fn interface_name(n: nat) -> Seq<char> {
    managed_prefix() + decimal(n)
}

/// The digits of a number written with an optional leading plus sign.
pub open spec fn unsigned_body(s: Seq<char>) -> Seq<char> {
    if s.len() > 0 && s[0] == '+' {
        s.skip(1)
    } else {
        s
    }
}

/// The number an interface name carries: what follows the prefix, read as a
/// decimal number with an optional plus sign. Names without the prefix, with
/// anything but digits after it, or with a number beyond 64 bits carry 0.
pub open spec fn interface_number(name: Seq<char>) -> nat {
    let body = unsigned_body(name.skip(3));
    if has_managed_prefix(name) && body.len() > 0 && all_digits(body) && decimal_value(body)
        <= u64::MAX {
        decimal_value(body)
    } else {
        0
    }
}

/// A number never shrinks when more digits are written after it.
pub proof fn lemma_decimal_value_prefix(s: Seq<char>, k: int)
    requires
        0 <= k <= s.len(),
    ensures
        decimal_value(s.take(k)) <= decimal_value(s),
    decreases s.len(),
{
    if k == s.len() {
        assert(s.take(k) =~= s);
    } else {
        assert(s.drop_last().take(k) =~= s.take(k));
        lemma_decimal_value_prefix(s.drop_last(), k);
        assert(decimal_value(s) >= decimal_value(s.drop_last())) by (nonlinear_arith)
            requires
                decimal_value(s) == decimal_value(s.drop_last()) * 10 + digit_value(s.last()),
        ;
    }
}

/// Reads the number that an interface name carries.
pub fn parse_interface_number(name: &str) -> (n: u64)
    ensures
        n == interface_number(name@),
{
    let len: usize = name.unicode_len();
    if len < 3 || name.get_char(0) != 'v' || name.get_char(1) != 'p' || name.get_char(2) != 's' {
        return 0;
    }
    let start: usize = if len > 3 && name.get_char(3) == '+' {
        4
    } else {
        3
    };
    let ghost body = unsigned_body(name@.skip(3));
    assert(body =~= name@.skip(start as int));
    if start >= len {
        return 0;
    }
    let mut i: usize = start;
    let mut value: u64 = 0;
    while i < len
        invariant
            3 <= start <= i <= len,
            len == name@.len(),
            body == name@.skip(start as int),
            has_managed_prefix(name@),
            body == unsigned_body(name@.skip(3)),
            all_digits(body.take(i - start)),
            value == decimal_value(body.take(i - start)),
        decreases len - i,
    {
        let c = name.get_char(i);
        let code: u32 = c as u32;
        let ghost k = i - start;
        assert(body[k] == c);
        assert(body.take(k + 1).drop_last() =~= body.take(k));
        assert(body.take(k + 1).last() == c);
        if code < 48 || code > 57 {
            assert(!is_digit(body[k]));
            return 0;
        }
        let d: u64 = (code - 48) as u64;
        if value > (u64::MAX - d) / 10 {
            proof {
                lemma_decimal_value_prefix(body, k + 1);
            }
            return 0;
        }
        value = value * 10 + d;
        i += 1;
    }
    assert(body.take(i - start) =~= body);
    value
}

/// The digit `d`, written.
fn digit_str(d: u8) -> (r: &'static str)
    requires
        d < 10,
    ensures
        r@ == seq![digit_char(d as nat)],
{
    proof {
        reveal_strlit("0");
        reveal_strlit("1");
        reveal_strlit("2");
        reveal_strlit("3");
        reveal_strlit("4");
        reveal_strlit("5");
        reveal_strlit("6");
        reveal_strlit("7");
        reveal_strlit("8");
        reveal_strlit("9");
    }
    let r = match d {
        0 => "0",
        1 => "1",
        2 => "2",
        3 => "3",
        4 => "4",
        5 => "5",
        6 => "6",
        7 => "7",
        8 => "8",
        _ => "9",
    };
    assert(r@ =~= seq![digit_char(d as nat)]);
    r
}

/// Appends the decimal digits of `n`.
fn push_decimal(s: &mut String, n: u64)
    ensures
        final(s)@ == old(s)@ + decimal(n as nat),
    decreases n,
{
    if n >= 10 {
        push_decimal(s, n / 10);
    }
    s.append(digit_str((n % 10) as u8));
    proof {
        if n >= 10 {
            assert(final(s)@ =~= old(s)@ + decimal(n as nat));
        } else {
            assert(final(s)@ =~= old(s)@ + decimal(n as nat));
        }
    }
}

/// Writes the name of the interface numbered `n`.
pub fn format_interface_name(n: u64) -> (name: String)
    ensures
        name@ == interface_name(n as nat),
{
    let mut name = String::from_str("vps");
    proof {
        reveal_strlit("vps");
        assert(name@ =~= managed_prefix());
    }
    push_decimal(&mut name, n);
    name
}


/// The digits of a number are digits, at least one, and write that number.
pub proof fn lemma_decimal_round_trip(n: nat)
    ensures
        decimal(n).len() >= 1,
        all_digits(decimal(n)),
        decimal_value(decimal(n)) == n,
    decreases n,
{
    if n < 10 {
        let s = decimal(n);
        assert(s.len() == 1);
        assert(s[0] == digit_char(n));
        assert(is_digit(digit_char(n)));
        assert(s.drop_last().len() == 0);
        assert(decimal_value(s.drop_last()) == 0);
        assert(digit_value(s.last()) == n);
    } else {
        lemma_decimal_round_trip(n / 10);
        let s = decimal(n);
        let head = decimal(n / 10);
        assert(s == head.push(digit_char(n % 10)));
        assert(s.drop_last() =~= head);
        assert(s.last() == digit_char(n % 10));
        assert(is_digit(digit_char(n % 10)));
        assert(digit_value(digit_char(n % 10)) == n % 10);
        assert forall|i: int| 0 <= i < s.len() implies is_digit(#[trigger] s[i]) by {
            if i < head.len() {
                assert(s[i] == head[i]);
            }
        }
    }
}

/// The name of an interface carries the number it was given.
pub proof fn lemma_name_carries_number(n: nat)
    requires
        n <= u64::MAX,
    ensures
        interface_number(interface_name(n)) == n,
        has_managed_prefix(interface_name(n)),
{
    lemma_decimal_round_trip(n);
    let name = interface_name(n);
    assert(name.skip(3) =~= decimal(n));
    assert(is_digit(decimal(n)[0]));
    assert(unsigned_body(name.skip(3)) == decimal(n));
}

/// Different numbers give different names.
pub proof fn lemma_names_differ(a: nat, b: nat)
    requires
        a != b,
    ensures
        interface_name(a) != interface_name(b),
{
    lemma_decimal_round_trip(a);
    lemma_decimal_round_trip(b);
    assert(interface_name(a).skip(3) =~= decimal(a));
    assert(interface_name(b).skip(3) =~= decimal(b));
}

} // verus!
