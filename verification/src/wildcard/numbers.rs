//! Whole numbers as text.
use super::chars::{chars_of, slice_of, string_of};
use vstd::prelude::*;

verus! {

/// The character of the decimal digit `d`.
pub open spec fn digit(d: int) -> char {
    ('0' as int + d) as char
}

/// `c` is a decimal digit.
pub open spec fn is_digit(c: char) -> bool {
    '0' <= c <= '9'
}

/// The value of a decimal digit.
pub open spec fn digit_value(c: char) -> int {
    c as int - '0' as int
}

/// The decimal digits of a natural number, without leading zeros.
pub open spec fn nat_text(n: nat) -> Seq<char>
    decreases n,
{
    if n < 10 {
        seq![digit(n as int)]
    } else {
        nat_text(n / 10).push(digit((n % 10) as int))
    }
}

/// An integer in decimal.
pub open spec fn int_text(v: int) -> Seq<char> {
    if v < 0 {
        seq!['-'] + nat_text((-v) as nat)
    } else {
        nat_text(v as nat)
    }
}

/// Every character is a decimal digit.
pub open spec fn all_digits(s: Seq<char>) -> bool {
    forall|i: int| 0 <= i < s.len() ==> is_digit(#[trigger] s[i])
}

/// The value of a text of decimal digits.
pub open spec fn digits_value(s: Seq<char>) -> nat
    decreases s.len(),
{
    if s.len() == 0 {
        0
    } else {
        (digits_value(s.drop_last()) * 10 + digit_value(s.last())) as nat
    }
}

/// The integer that a text spells: an optional sign, then one or more digits.
pub open spec fn int_of(s: Seq<char>) -> Option<int> {
    let signed = s.len() > 0 && (s[0] == '-' || s[0] == '+');
    let body = if signed {
        s.drop_first()
    } else {
        s
    };
    if body.len() == 0 || !all_digits(body) {
        None
    } else if signed && s[0] == '-' {
        Some(-digits_value(body))
    } else {
        Some(digits_value(body) as int)
    }
}

/// The 64-bit integer that a text spells.
pub open spec fn i64_of(s: Seq<char>) -> Option<int> {
    match int_of(s) {
        Some(v) => if i64::MIN <= v <= i64::MAX {
            Some(v)
        } else {
            None
        },
        None => None,
    }
}

fn digit_char(d: u8) -> (c: char)
    requires
        d < 10,
    ensures
        c == digit(d as int),
{
    (48 + d) as char
}

/// The decimal digits of a natural number, last digit first.
fn reversed_digits(n: u64) -> (v: Vec<char>)
    ensures
        v@.reverse() == nat_text(n as nat),
{
    let mut v: Vec<char> = Vec::new();
    let mut rest: u64 = n;
    while rest >= 10
        invariant
            nat_text(n as nat) == nat_text(rest as nat) + v@.reverse(),
        decreases rest,
    {
        let ghost before = v@;
        let c = digit_char((rest % 10) as u8);
        v.push(c);
        proof {
            assert(v@.reverse() =~= seq![c] + before.reverse());
            assert(nat_text(rest as nat) == nat_text((rest / 10) as nat).push(c));
            assert(nat_text(rest as nat) + before.reverse() =~= nat_text((rest / 10) as nat)
                + v@.reverse());
        }
        rest = rest / 10;
    }
    let ghost before = v@;
    let c = digit_char(rest as u8);
    v.push(c);
    assert(v@.reverse() =~= seq![c] + before.reverse());
    v
}

/// An integer in decimal.
pub fn decimal(v: i64) -> (text: String)
    ensures
        text@ == int_text(v as int),
{
    let magnitude: u64 = if v < 0 {
        (-(v as i128)) as u64
    } else {
        v as u64
    };
    let mut digits = reversed_digits(magnitude);
    let ghost plain = digits@;
    if v < 0 {
        digits.push('-');
        assert(digits@.reverse() =~= seq!['-'] + plain.reverse());
    }
    let mut text = String::new();
    let mut i: usize = digits.len();
    while i > 0
        invariant
            i <= digits@.len(),
            text@ == digits@.reverse().take(digits@.len() - i),
        decreases i,
    {
        i = i - 1;
        proof {
            let k = digits@.len() - i - 1;
            assert(digits@.reverse().take(k + 1) =~= digits@.reverse().take(k).push(
                digits@[i as int],
            ));
        }
        text.push(digits[i]);
    }
    assert(digits@.reverse().take(digits@.len() as int) =~= digits@.reverse());
    text
}

/// The 64-bit integer that a text spells.
pub fn parse_int(text: &[char]) -> (r: Option<i64>)
    ensures
        match r {
            Some(v) => i64_of(text@) == Some(v as int),
            None => i64_of(text@) is None,
        },
{
    let n = text.len();
    if n == 0 {
        return None;
    }
    let negative = text[0] == '-';
    let signed = negative || text[0] == '+';
    let start: usize = if signed {
        1
    } else {
        0
    };
    let ghost body = text@.subrange(start as int, n as int);
    assert(signed ==> body =~= text@.drop_first());
    assert(!signed ==> body =~= text@);
    if start == n {
        return None;
    }
    let mut value: u128 = 0;
    let mut i: usize = start;
    while i < n
        invariant
            start <= i <= n == text@.len(),
            body == text@.subrange(start as int, n as int),
            signed == (text@[0] == '-' || text@[0] == '+'),
            body == if signed {
                text@.drop_first()
            } else {
                text@
            },
            all_digits(text@.subrange(start as int, i as int)),
            value == if digits_value(text@.subrange(start as int, i as int)) < 0x1_0000_0000_0000_0000 {
                digits_value(text@.subrange(start as int, i as int)) as int
            } else {
                0x1_0000_0000_0000_0000
            },
        decreases n - i,
    {
        let c = text[i];
        if c < '0' || c > '9' {
            assert(!is_digit(body[i - start]));
            return None;
        }
        let ghost shorter = text@.subrange(start as int, i as int);
        let ghost longer = text@.subrange(start as int, i + 1);
        assert(longer.drop_last() =~= shorter);
        let next = value * 10 + (c as u32 - '0' as u32) as u128;
        value = if next < 0x1_0000_0000_0000_0000 {
            next
        } else {
            0x1_0000_0000_0000_0000
        };
        i = i + 1;
    }
    if negative {
        if value <= 0x8000_0000_0000_0000 {
            Some((-(value as i128)) as i64)
        } else {
            None
        }
    } else {
        if value <= 0x7FFF_FFFF_FFFF_FFFF {
            Some(value as i64)
        } else {
            None
        }
    }
}

/// The character of the hexadecimal digit `d`.
pub open spec fn hex_digit(d: int, upper: bool) -> char {
    if d < 10 {
        digit(d)
    } else if upper {
        ('A' as int + d - 10) as char
    } else {
        ('a' as int + d - 10) as char
    }
}

/// A byte as two hexadecimal digits.
pub open spec fn hex_text(v: u8, upper: bool) -> Seq<char> {
    seq![hex_digit(v as int / 16, upper), hex_digit(v as int % 16, upper)]
}

/// A byte as three decimal digits.
pub open spec fn padded_text(v: u8) -> Seq<char> {
    seq![digit(v as int / 100), digit(v as int / 10 % 10), digit(v as int % 10)]
}

fn hex_char(d: u8, upper: bool) -> (c: char)
    requires
        d < 16,
    ensures
        c == hex_digit(d as int, upper),
{
    if d < 10 {
        digit_char(d)
    } else if upper {
        (55 + d) as char
    } else {
        (87 + d) as char
    }
}

/// A byte as two hexadecimal digits.
pub fn hex_byte(v: u8, upper: bool) -> (text: String)
    ensures
        text@ == hex_text(v, upper),
{
    let mut text = String::new();
    text.push(hex_char(v / 16, upper));
    text.push(hex_char(v % 16, upper));
    assert(text@ =~= hex_text(v, upper));
    text
}

/// A byte as three decimal digits.
pub fn padded_byte(v: u8) -> (text: String)
    ensures
        text@ == padded_text(v),
{
    let mut text = String::new();
    text.push(digit_char(v / 100));
    text.push(digit_char(v / 10 % 10));
    text.push(digit_char(v % 10));
    assert(text@ =~= padded_text(v));
    text
}

/// A text without the zeros at its end.
pub open spec fn without_zeros(s: Seq<char>) -> Seq<char>
    decreases s.len(),
{
    if s.len() > 0 && s.last() == '0' {
        without_zeros(s.drop_last())
    } else {
        s
    }
}

/// A text without the zeros at its end, and without the point before them.
pub open spec fn trimmed(s: Seq<char>) -> Seq<char> {
    let t = without_zeros(s);
    if t.len() > 0 && t.last() == '.' {
        t.drop_last()
    } else {
        t
    }
}

/// Removes the zeros at the end of a number with a fraction, and the point if
/// no fraction remains.
pub fn trim_fraction(text: &str) -> (r: String)
    ensures
        r@ == trimmed(text@),
{
    let chars = chars_of(text);
    let mut n: usize = chars.len();
    assert(chars@.subrange(0, n as int) =~= chars@);
    while n > 0 && chars[n - 1] == '0'
        invariant
            n <= chars@.len(),
            without_zeros(chars@) == without_zeros(chars@.subrange(0, n as int)),
        decreases n,
    {
        assert(chars@.subrange(0, n as int).drop_last() =~= chars@.subrange(0, n - 1));
        n = n - 1;
    }
    if n > 0 && chars[n - 1] == '.' {
        assert(chars@.subrange(0, n as int).drop_last() =~= chars@.subrange(0, n - 1));
        n = n - 1;
    }
    string_of(&slice_of(&chars, 0, n))
}

/// Reading back an integer written in decimal gives that integer.
pub proof fn law_decimal_round_trip(v: int)
    ensures
        int_of(int_text(v)) == Some(v),
{
    let n = if v < 0 {
        (-v) as nat
    } else {
        v as nat
    };
    lemma_nat_text(n);
    if v < 0 {
        assert(int_text(v).drop_first() =~= nat_text(n));
    } else {
        assert(is_digit(nat_text(n)[0]));
    }
}

/// The decimal digits of a number are digits, at least one, and have its value.
pub proof fn lemma_nat_text(n: nat)
    ensures
        nat_text(n).len() > 0,
        all_digits(nat_text(n)),
        digits_value(nat_text(n)) == n,
    decreases n,
{
    if n < 10 {
        let s = nat_text(n);
        assert(s.drop_last() =~= Seq::<char>::empty());
        assert(digits_value(s.drop_last()) == 0);
    } else {
        lemma_nat_text(n / 10);
        assert(nat_text(n).drop_last() =~= nat_text(n / 10));
    }
}

/// Writing a number in decimal: one more digit makes it ten times as large and
/// adds the digit, small numbers are their digits, and a negative number is its
/// opposite behind a minus sign.
pub proof fn law_decimal_places_count_tenfold(n: nat, d: nat)
    requires
        d < 10,
    ensures
        n > 0 ==> int_text((10 * n + d) as int) == int_text(n as int).push(
            "0123456789"@[d as int],
        ),
        int_text(d as int) == seq!["0123456789"@[d as int]],
        n > 0 ==> int_text(-(n as int)) == seq!['-'] + int_text(n as int),
{
    reveal_strlit("0123456789");
    assert("0123456789"@[d as int] == digit(d as int));
    assert((10 * n + d) / 10 == n && (10 * n + d) % 10 == d);
}

/// Reading digits: a digit more makes the number ten times as large and adds the
/// digit, signs make it positive or negative, and anything else in between makes
/// it no number.
pub proof fn law_digits_count_tenfold(s: Seq<char>, d: nat)
    requires
        d < 10,
        s.len() > 0,
        forall|i: int| 0 <= i < s.len() ==> '0' <= #[trigger] s[i] <= '9',
    ensures
        int_of(s) is Some,
        int_of(s.push("0123456789"@[d as int])) == Some(10 * int_of(s)->0 + d),
        int_of(seq!["0123456789"@[d as int]]) == Some(d as int),
        int_of(seq!['-'] + s) == Some(-int_of(s)->0),
        int_of(seq!['+'] + s) == int_of(s),
{
    reveal_strlit("0123456789");
    let c = "0123456789"@[d as int];
    assert(digit_value(c) == d);
    let more = s.push(c);
    assert(more.drop_last() =~= s);
    assert(all_digits(s)) by {
        assert forall|i: int| 0 <= i < s.len() implies is_digit(#[trigger] s[i]) by {}
    }
    assert(is_digit(s[0]) && more[0] == s[0]);
    assert(all_digits(more)) by {
        assert forall|i: int| 0 <= i < more.len() implies is_digit(#[trigger] more[i]) by {
            if i < s.len() {
                assert(more[i] == s[i]);
            }
        }
    }
    let one = seq![c];
    assert(one.drop_last() =~= Seq::<char>::empty());
    assert(digits_value(one.drop_last()) == 0);
    assert(all_digits(one));
    assert((seq!['-'] + s).drop_first() =~= s);
    assert((seq!['+'] + s).drop_first() =~= s);
}

/// A text with a character that is no digit behind its first spells no whole
/// number.
pub proof fn law_only_digits_make_a_number(s: Seq<char>, i: int)
    requires
        0 < i < s.len(),
        !('0' <= s[i] <= '9'),
    ensures
        int_of(s) is None,
        i64_of(s) is None,
{
    let signed = s[0] == '-' || s[0] == '+';
    let body = if signed {
        s.drop_first()
    } else {
        s
    };
    let k = if signed {
        i - 1
    } else {
        i
    };
    assert(body[k] == s[i]);
    assert(!is_digit(body[k]));
}

/// The two hexadecimal digits of a byte stand for its sixteens and its ones, in
/// upper or in lower case letters.
pub proof fn law_hex_digits_are_sixteens_and_ones(v: u8)
    ensures
        hex_text(v, true) == seq![
            "0123456789ABCDEF"@[v as int / 16],
            "0123456789ABCDEF"@[v as int % 16],
        ],
        hex_text(v, false) == seq![
            "0123456789abcdef"@[v as int / 16],
            "0123456789abcdef"@[v as int % 16],
        ],
{
    reveal_strlit("0123456789ABCDEF");
    reveal_strlit("0123456789abcdef");
}

/// A byte in three digits spells the byte.
pub proof fn law_padded_byte_spells_the_byte(v: u8)
    ensures
        padded_text(v).len() == 3,
        int_of(padded_text(v)) == Some(v as int),
{
    let s = padded_text(v);
    let (a, b, c) = (v as int / 100, v as int / 10 % 10, v as int % 10);
    assert(is_digit(s[0]) && is_digit(s[1]) && is_digit(s[2]));
    assert(all_digits(s));
    let two = s.drop_last();
    let one = two.drop_last();
    assert(one.drop_last() =~= Seq::<char>::empty());
    reveal_with_fuel(digits_value, 4);
    assert(digit_value(s[0]) == a && digit_value(s[1]) == b && digit_value(s[2]) == c);
    assert(two.last() == s[1] && one.last() == s[0] && s.last() == s[2]);
}

/// Trimming takes zeros off the end of a number, and then a point, and nothing
/// else: what is left is the front of the text and ends neither in a zero behind
/// a point nor in a point.
pub proof fn law_trimming_takes_zeros_off_the_end(s: Seq<char>, p: int)
    requires
        0 <= p < s.len(),
        s[p] == '.',
        forall|i: int| p < i < s.len() ==> #[trigger] s[i] != '.',
    ensures
        ({
            let t = trimmed(s);
            let n = t.len() as int;
            &&& p <= n <= s.len()
            &&& t == s.take(n)
            &&& forall|i: int| n <= i < s.len() ==> #[trigger] s[i] == '0' || i == p
            &&& n == p || p + 1 < n && s[n - 1] != '0'
        }),
{
    lemma_without_zeros(s);
    let t = without_zeros(s);
    let n = t.len() as int;
    assert(p < n) by {
        if n <= p {
            assert(s[p] == '0');
        }
    }
    if s[n - 1] == '.' {
        assert(n - 1 == p);
        assert(t.drop_last() =~= s.take(p));
    }
}

/// What is left without the zeros at the end.
proof fn lemma_without_zeros(s: Seq<char>)
    ensures
        without_zeros(s).len() <= s.len(),
        without_zeros(s) == s.take(without_zeros(s).len() as int),
        forall|i: int| without_zeros(s).len() <= i < s.len() ==> #[trigger] s[i] == '0',
        without_zeros(s).len() > 0 ==> without_zeros(s).last() != '0',
    decreases s.len(),
{
    if s.len() > 0 && s.last() == '0' {
        lemma_without_zeros(s.drop_last());
        let n = without_zeros(s).len() as int;
        assert(s.drop_last().take(n) =~= s.take(n));
        assert forall|i: int| n <= i < s.len() implies #[trigger] s[i] == '0' by {
            if i < s.len() - 1 {
                assert(s.drop_last()[i] == s[i]);
            }
        }
    } else {
        assert(s.take(s.len() as int) =~= s);
    }
}

/// A whole number counts if 64 bits hold it, and not otherwise.
pub proof fn law_numbers_have_64_bits(s: Seq<char>)
    ensures
        i64_of(s) is Some <==> int_of(s) is Some && -0x8000_0000_0000_0000 <= int_of(s)->0
            <= 0x7FFF_FFFF_FFFF_FFFF,
        i64_of(s) is Some ==> i64_of(s) == int_of(s),
{
}

} // verus!
