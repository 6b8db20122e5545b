//! Integers in decimal notation.
use vstd::prelude::*;

use crate::text::chars_of;

verus! {

/// The character of a digit.
pub open spec fn digit_char(d: int) -> char {
    if d == 0 {
        '0'
    } else if d == 1 {
        '1'
    } else if d == 2 {
        '2'
    } else if d == 3 {
        '3'
    } else if d == 4 {
        '4'
    } else if d == 5 {
        '5'
    } else if d == 6 {
        '6'
    } else if d == 7 {
        '7'
    } else if d == 8 {
        '8'
    } else {
        '9'
    }
}

/// The decimal digits of a natural number, without leading zeros.
pub open spec fn digits(n: nat) -> Seq<char>
    decreases n,
{
    if n < 10 {
        seq![digit_char(n as int)]
    } else {
        digits(n / 10).push(digit_char((n % 10) as int))
    }
}

/// An integer in decimal, with a `-` in front where it is negative.
pub open spec fn decimal(n: int) -> Seq<char> {
    if n < 0 {
        seq!['-'] + digits((-n) as nat)
    } else {
        digits(n as nat)
    }
}

fn digit(d: u64) -> (c: char)
    requires
        d < 10,
    ensures
        c == digit_char(d as int),
{
    match d {
        0 => '0',
        1 => '1',
        2 => '2',
        3 => '3',
        4 => '4',
        5 => '5',
        6 => '6',
        7 => '7',
        8 => '8',
        _ => '9',
    }
}

fn push_digits(s: &mut String, n: u64)
    ensures
        final(s)@ == old(s)@ + digits(n as nat),
    decreases n,
{
    if n >= 10 {
        push_digits(s, n / 10);
    }
    s.push(digit(n % 10));
    proof {
        if n >= 10 {
            assert(old(s)@ + digits((n / 10) as nat).push(digit_char((n % 10) as int)) =~= (old(s)@
                + digits((n / 10) as nat)).push(digit_char((n % 10) as int)));
        } else {
            assert(old(s)@ + seq![digit_char(n as int)] =~= old(s)@.push(digit_char(n as int)));
        }
    }
}

/// Writes an integer in decimal.
pub fn i32_text(n: i32) -> (s: String)
    ensures
        s@ == decimal(n as int),
{
    let mut s = String::new();
    if n < 0 {
        s.push('-');
        push_digits(&mut s, (-(n as i64)) as u64);
        proof {
            assert(Seq::<char>::empty().push('-') =~= seq!['-']);
        }
    } else {
        push_digits(&mut s, n as u64);
        proof {
            assert(Seq::<char>::empty() + digits(n as nat) =~= digits(n as nat));
        }
    }
    s
}

/// Writes a count in decimal.
pub fn usize_text(n: usize) -> (s: String)
    ensures
        s@ == decimal(n as int),
{
    let mut s = String::new();
    push_digits(&mut s, n as u64);
    proof {
        assert(Seq::<char>::empty() + digits(n as nat) =~= digits(n as nat));
    }
    s
}

/// The value of an ASCII digit.
pub open spec fn digit_value(c: char) -> nat {
    (c as int - '0' as int) as nat
}

/// An ASCII digit.
pub open spec fn is_digit(c: char) -> bool {
    '0' <= c <= '9'
}

/// Only ASCII digits, or nothing.
pub open spec fn all_digits(s: Seq<char>) -> bool {
    forall|i: int| 0 <= i < s.len() ==> is_digit(#[trigger] s[i])
}

/// The number that a row of digits stands for.
pub open spec fn value(s: Seq<char>) -> nat
    decreases s.len(),
{
    if s.len() == 0 {
        0
    } else {
        10 * value(s.drop_last()) + digit_value(s.last())
    }
}

/// The digits of a number text: what follows its sign, where it has one.
pub open spec fn unsigned_part(s: Seq<char>) -> Seq<char> {
    if s.len() > 0 && (s[0] == '-' || s[0] == '+') {
        s.drop_first()
    } else {
        s
    }
}

/// The integer that a number text stands for.
pub open spec fn signed_value(s: Seq<char>) -> int {
    if s.len() > 0 && s[0] == '-' {
        -(value(unsigned_part(s)) as int)
    } else {
        value(unsigned_part(s)) as int
    }
}

/// The texts that spell an `i32`: at most one sign, then digits alone, and a value in range.
pub open spec fn spells_i32(s: Seq<char>) -> bool {
    &&& unsigned_part(s).len() > 0
    &&& all_digits(unsigned_part(s))
    &&& i32::MIN <= signed_value(s) <= i32::MAX
}

/// Whether a text consists of ASCII digits alone, from position `from` on.
pub fn only_digits(chars: &Vec<char>, from: usize) -> (yes: bool)
    requires
        from <= chars@.len(),
    ensures
        yes == all_digits(chars@.skip(from as int)),
{
    let mut i: usize = from;
    while i < chars.len()
        invariant
            from <= i <= chars@.len(),
            forall|k: int| from <= k < i ==> is_digit(#[trigger] chars@[k]),
        decreases chars@.len() - i,
    {
        if !('0' <= chars[i] && chars[i] <= '9') {
            proof {
                assert(!is_digit(chars@.skip(from as int)[i - from]));
            }
            return false;
        }
        i = i + 1;
    }
    true
}

proof fn lemma_value_grows(s: Seq<char>, i: int)
    requires
        0 <= i <= s.len(),
    ensures
        value(s.take(i)) <= value(s),
    decreases s.len() - i,
{
    if i < s.len() {
        lemma_value_grows(s, i + 1);
        assert(s.take(i + 1).drop_last() =~= s.take(i));
    } else {
        assert(s.take(i) =~= s);
    }
}

/// Whether a text spells an `i32`.
pub fn is_i32(s: &str) -> (yes: bool)
    ensures
        yes == spells_i32(s@),
{
    let chars = chars_of(s);
    let signed = chars.len() > 0 && (chars[0] == '-' || chars[0] == '+');
    let from: usize = if signed {
        1
    } else {
        0
    };
    let ghost part = unsigned_part(s@);
    proof {
        assert(part =~= chars@.skip(from as int));
    }
    if from == chars.len() || !only_digits(&chars, from) {
        return false;
    }
    let limit: u64 = if signed && chars[0] == '-' {
        2147483648
    } else {
        2147483647
    };
    let mut total: u64 = 0;
    let mut i: usize = from;
    proof {
        assert(part.take(0) =~= Seq::<char>::empty());
    }
    while i < chars.len()
        invariant
            from <= i <= chars@.len(),
            chars@ == s@,
            part == chars@.skip(from as int),
            part == unsigned_part(s@),
            all_digits(part),
            limit == (if s@.len() > 0 && s@[0] == '-' {
                2147483648u64
            } else {
                2147483647u64
            }),
            total == value(part.take(i - from)),
            total <= limit,
        decreases chars@.len() - i,
    {
        let c = chars[i];
        proof {
            assert(c == part[i - from]);
            assert(is_digit(c));
            assert(part.take(i + 1 - from).drop_last() =~= part.take(i - from));
            assert(part.take(i + 1 - from).last() == c);
        }
        total = total * 10 + (c as u64 - '0' as u64);
        if total > limit {
            proof {
                lemma_value_grows(part, i + 1 - from);
            }
            return false;
        }
        i = i + 1;
    }
    proof {
        assert(part.take(i - from) =~= part);
    }
    true
}

/// Every `i32` in decimal spells an `i32`, namely itself.
pub proof fn law_decimal_round_trip(n: int)
    requires
        i32::MIN <= n <= i32::MAX,
    ensures
        spells_i32(decimal(n)),
        signed_value(decimal(n)) == n,
{
    lemma_digits(if n < 0 {
        (-n) as nat
    } else {
        n as nat
    });
    if n < 0 {
        assert(decimal(n).drop_first() =~= digits((-n) as nat));
    }
}

/// Different integers are written differently.
pub proof fn law_decimal_is_injective(a: int, b: int)
    requires
        decimal(a) == decimal(b),
    ensures
        a == b,
{
    let m = if a < 0 {
        (-a) as nat
    } else {
        a as nat
    };
    let n = if b < 0 {
        (-b) as nat
    } else {
        b as nat
    };
    lemma_digits(m);
    lemma_digits(n);
    if a < 0 {
        assert(decimal(a)[0] == '-');
        assert(decimal(a).drop_first() =~= digits(m));
    }
    if b < 0 {
        assert(decimal(b)[0] == '-');
        assert(decimal(b).drop_first() =~= digits(n));
    }
}

proof fn lemma_digits(n: nat)
    ensures
        digits(n).len() > 0,
        all_digits(digits(n)),
        value(digits(n)) == n,
        unsigned_part(digits(n)) == digits(n),
        digits(n)[0] != '-',
    decreases n,
{
    if n < 10 {
        assert(digits(n).drop_last() =~= Seq::<char>::empty());
        assert(value(Seq::<char>::empty()) == 0);
        assert(digits(n).last() == digit_char(n as int));
        assert(digit_value(digit_char(n as int)) == n);
    } else {
        lemma_digits(n / 10);
        assert(digits(n).drop_last() =~= digits(n / 10));
        assert(digits(n)[0] == digits(n / 10)[0]);
        assert(digit_value(digit_char((n % 10) as int)) == n % 10);
        assert(is_digit(digit_char((n % 10) as int)));
        assert(is_digit(digits(n / 10)[0]));
    }
}

/// A number below ten is its digit; a larger one is written as its tenth followed by the last
/// digit; and a negative one has a dash in front.
pub proof fn law_decimal_notation(n: int)
    ensures
        0 <= n < 10 ==> decimal(n).len() == 1 && decimal(n)[0] as int == '0' as int + n,
        n >= 10 ==> decimal(n) == decimal(n / 10) + decimal(n % 10),
        n < 0 ==> decimal(n) == seq!['-'] + decimal(-n),
{
    if n >= 10 {
        assert(digits(n as nat) =~= digits((n / 10) as nat) + digits((n % 10) as nat));
    }
}

/// A number in decimal spells an `i32` exactly if it is one.
pub proof fn law_number_is_spelled(n: int)
    ensures
        spells_i32(decimal(n)) <==> -2147483648 <= n <= 2147483647,
{
    let m = if n < 0 {
        (-n) as nat
    } else {
        n as nat
    };
    lemma_digits(m);
    if n < 0 {
        assert(decimal(n).drop_first() =~= digits(m));
    }
}

/// A text spells no number where it is empty or a bare sign, or where something stands in it
/// that is no digit and no sign at its start.
pub proof fn law_other_texts_spell_nothing(s: Seq<char>, i: int)
    ensures
        s.len() == 0 ==> !spells_i32(s),
        s == seq!['-'] || s == seq!['+'] ==> !spells_i32(s),
        0 <= i < s.len() && !('0' <= s[i] <= '9') && !(i == 0 && (s[0] == '-' || s[0] == '+'))
            ==> !spells_i32(s),
{
    if 0 <= i < s.len() && !('0' <= s[i] <= '9') && !(i == 0 && (s[0] == '-' || s[0] == '+')) {
        let part = unsigned_part(s);
        if s[0] == '-' || s[0] == '+' {
            assert(part[i - 1] == s[i]);
        } else {
            assert(part[i] == s[i]);
        }
        assert(!all_digits(part));
    }
}

proof fn lemma_leading_zero(s: Seq<char>)
    ensures
        value(seq!['0'] + s) == value(s),
    decreases s.len(),
{
    let longer = seq!['0'] + s;
    if s.len() == 0 {
        assert(longer.drop_last() =~= Seq::<char>::empty());
        assert(value(longer.drop_last()) == 0);
    } else {
        lemma_leading_zero(s.drop_last());
        assert(longer.drop_last() =~= seq!['0'] + s.drop_last());
        assert(longer.last() == s.last());
    }
}

proof fn lemma_zeros(s: Seq<char>)
    requires
        forall|i: int| 0 <= i < s.len() ==> #[trigger] s[i] == '0',
    ensures
        value(s) == 0,
    decreases s.len(),
{
    if s.len() > 0 {
        lemma_zeros(s.drop_last());
    }
}

/// Leading zeros, and a plus sign, make no difference to whether digits spell a number, nor does a
/// minus sign where they are all zeros.
pub proof fn law_zeros_and_plus_make_no_difference(s: Seq<char>)
    requires
        s.len() > 0,
        forall|i: int| 0 <= i < s.len() ==> '0' <= #[trigger] s[i] <= '9',
    ensures
        spells_i32(seq!['0'] + s) == spells_i32(s),
        spells_i32(seq!['+'] + s) == spells_i32(s),
        spells_i32(seq!['-', '0'] + s) == spells_i32(seq!['-'] + s),
        (forall|i: int| 0 <= i < s.len() ==> #[trigger] s[i] == '0') ==> spells_i32(seq!['-'] + s),
{
    if forall|i: int| 0 <= i < s.len() ==> #[trigger] s[i] == '0' {
        lemma_zeros(s);
    }
    let zero = seq!['0'] + s;
    lemma_leading_zero(s);
    assert('0' <= s[0] <= '9');
    assert(all_digits(s));
    assert(all_digits(zero));
    assert(zero[0] == '0');
    assert((seq!['+'] + s).drop_first() =~= s);
    assert((seq!['-'] + s).drop_first() =~= s);
    assert((seq!['-', '0'] + s).drop_first() =~= zero);
}

} // verus!
