//! What a `$[...]` block stands for.
use super::chars::{
    after, slice_of, spells, split_at_char, split_chars, starts_with, string_of, strip_prefix,
};
use super::formula::{
    formula_of, is_unsigned_real, numbers_within, parse_formula, unsigned_real, BoxVariable,
    Formula, Operator,
};
use super::numbers::{
    all_digits, decimal, digits_value, hex_byte, hex_text, i64_of, int_of, int_text, padded_byte,
    padded_text, parse_int,
};
use crate::rng::{
    draw, index_draw, next_state, random_chars, range_draw, state_after, Rng,
};
use vstd::arithmetic::div_mod::lemma_fundamental_div_mod_converse;
use vstd::prelude::*;
use vstd::string::StringSliceAdditionalSpecFns;

verus! {

/// The numbers of a box that a template can show.
#[derive(Debug, Clone, Copy)]
pub struct BoxContext {
    pub x: i64,
    pub y: i64,
    pub w: i64,
    pub h: i64,
    pub r: u8,
    pub g: u8,
    pub b: u8,
    pub pixels: i64,
    pub total_pixels: i64,
    pub id: i32,
}

/// Upper and lower case letters.
pub const ALPHABET_MIX: &'static str = "abcdefghijklmnopqrstuvwxyzABCDEFGHIJKLMNOPQRSTUVWXYZ";

/// Upper case letters.
pub const ALPHABET_UPPER: &'static str = "ABCDEFGHIJKLMNOPQRSTUVWXYZ";

/// Lower case letters.
pub const ALPHABET_LOWER: &'static str = "abcdefghijklmnopqrstuvwxyz";

/// Letters and digits.
pub const ALNUM_MIX: &'static str =
    "abcdefghijklmnopqrstuvwxyzABCDEFGHIJKLMNOPQRSTUVWXYZ0123456789";

/// Upper case letters and digits.
pub const ALNUM_UPPER: &'static str = "ABCDEFGHIJKLMNOPQRSTUVWXYZ0123456789";

/// Lower case letters and digits.
pub const ALNUM_LOWER: &'static str = "abcdefghijklmnopqrstuvwxyz0123456789";

/// Punctuation.
pub const SPECIAL: &'static str = "!\"#$%&'()*+,-./:;<=>?@[\\]^_`{|}~";

/// Hexadecimal digits.
pub const HEXDIGITS: &'static str = "0123456789abcdef";

/// Letters, digits and punctuation.
pub const ALL_MIX: &'static str =
    "abcdefghijklmnopqrstuvwxyzABCDEFGHIJKLMNOPQRSTUVWXYZ0123456789!\"#$%&'()*+,-./:;<=>?@[\\]^_`{|}~";

/// The value of a formula, as far as whole numbers can tell it.
#[derive(Debug, Clone, Copy, PartialEq, Eq, Structural)]
pub enum Exact {
    /// A whole number, reached over whole numbers only, all of them small
    /// enough to be exact in double precision.
    Value(i64),
    /// The formula divides by zero.
    Undefined,
    /// The value takes fractions or bigger numbers.
    Inexact,
}

/// The greatest magnitude up to which double precision holds every whole
/// number.
pub const MAX_EXACT: i64 = 0x20_0000_0000_0000;

/// A whole number, if it is small enough to be exact.
pub open spec fn exact_int(v: int) -> Exact {
    if -MAX_EXACT <= v <= MAX_EXACT {
        Exact::Value(v as i64)
    } else {
        Exact::Inexact
    }
}

/// The outcome of an operator on two outcomes.
pub open spec fn exact_binary(op: Operator, a: Exact, b: Exact) -> Exact {
    match (a, b) {
        (Exact::Undefined, _) => Exact::Undefined,
        (_, Exact::Undefined) => Exact::Undefined,
        (Exact::Value(x), Exact::Value(y)) => match op {
            Operator::Add => exact_int(x + y),
            Operator::Subtract => exact_int(x - y),
            Operator::Multiply => exact_int(x * y),
            Operator::Divide => if y == 0 {
                Exact::Undefined
            } else if x as int % y as int == 0 {
                exact_int(x as int / y as int)
            } else {
                Exact::Inexact
            },
        },
        (Exact::Inexact, Exact::Value(y)) => if op == Operator::Divide && y == 0 {
            Exact::Undefined
        } else {
            Exact::Inexact
        },
        _ => Exact::Inexact,
    }
}

/// The value of a variable.
pub open spec fn variable_value(ctx: BoxContext, v: BoxVariable) -> int {
    match v {
        BoxVariable::X => ctx.x as int,
        BoxVariable::Y => ctx.y as int,
        BoxVariable::Width => ctx.w as int,
        BoxVariable::Height => ctx.h as int,
        BoxVariable::Red => ctx.r as int,
        BoxVariable::Green => ctx.g as int,
        BoxVariable::Blue => ctx.b as int,
        BoxVariable::Pixels => ctx.pixels as int,
        BoxVariable::Id => ctx.id as int,
    }
}

/// The value of a formula that `text` spells, as far as whole numbers can tell
/// it.
pub open spec fn exact_value(f: Formula, text: Seq<char>, ctx: BoxContext) -> Exact
    decreases f,
{
    match f {
        Formula::Number { start, end } => {
            let literal = text.subrange(start as int, end as int);
            if all_digits(literal) {
                exact_int(digits_value(literal) as int)
            } else {
                Exact::Inexact
            }
        },
        Formula::Variable(v) => exact_int(variable_value(ctx, v)),
        Formula::Negate(a) => match exact_value(*a, text, ctx) {
            Exact::Value(x) => exact_int(-x),
            other => other,
        },
        Formula::Binary(op, a, b) => exact_binary(
            op,
            exact_value(*a, text, ctx),
            exact_value(*b, text, ctx),
        ),
    }
}

fn to_exact(v: i128) -> (r: Exact)
    ensures
        r == exact_int(v as int),
{
    if -(MAX_EXACT as i128) <= v && v <= MAX_EXACT as i128 {
        Exact::Value(v as i64)
    } else {
        Exact::Inexact
    }
}

/// Divides whole numbers, if the quotient is whole.
fn divide_exact(x: i64, y: i64) -> (r: Option<i128>)
    requires
        y != 0,
    ensures
        match r {
            Some(q) => x as int % y as int == 0 && q == x as int / y as int,
            None => x as int % y as int != 0,
        },
{
    let a: u64 = if x < 0 {
        (-(x as i128)) as u64
    } else {
        x as u64
    };
    let b: u64 = if y < 0 {
        (-(y as i128)) as u64
    } else {
        y as u64
    };
    let q = a / b;
    let rest = a % b;
    proof {
        lemma_signed_division(x as int, y as int);
        vstd::arithmetic::div_mod::lemma_fundamental_div_mod(a as int, b as int);
    }
    if rest != 0 {
        return None;
    }
    if (x < 0) == (y < 0) {
        Some(q as i128)
    } else {
        Some(-(q as i128))
    }
}

proof fn lemma_signed_division(x: int, y: int)
    requires
        y != 0,
    ensures
        ({
            let a = if x < 0 {
                -x
            } else {
                x
            };
            let b = if y < 0 {
                -y
            } else {
                y
            };
            &&& a % b == 0 <==> x % y == 0
            &&& a % b == 0 ==> x / y == if (x < 0) == (y < 0) {
                a / b
            } else {
                -(a / b)
            }
        }),
{
    let a = if x < 0 {
        -x
    } else {
        x
    };
    let b = if y < 0 {
        -y
    } else {
        y
    };
    let q = a / b;
    let r = a % b;
    let p = x / y;
    let t = x % y;
    assert(a == b * q + r && 0 <= r < b) by (nonlinear_arith)
        requires
            b > 0,
            q == a / b,
            r == a % b,
    ;
    assert(x == y * p + t && 0 <= t < b) by (nonlinear_arith)
        requires
            y != 0,
            p == x / y,
            t == x % y,
            b == if y < 0 { -y } else { y },
    ;
    let sq = if (x < 0) == (y < 0) {
        q
    } else {
        -q
    };
    if r == 0 {
        assert(x == y * sq) by (nonlinear_arith)
            requires
                a == b * q,
                a == if x < 0 { -x } else { x },
                b == if y < 0 { -y } else { y },
                sq == if (x < 0) == (y < 0) { q } else { -q },
        ;
        assert(p == sq && t == 0) by (nonlinear_arith)
            requires
                x == y * sq,
                x == y * p + t,
                0 <= t < b,
                b == if y < 0 { -y } else { y },
        ;
    }
    if t == 0 {
        let sp = if (x < 0) == (y < 0) {
            p
        } else {
            -p
        };
        assert(a == sp * b) by (nonlinear_arith)
            requires
                x == y * p,
                a == if x < 0 { -x } else { x },
                b == if y < 0 { -y } else { y },
                sp == if (x < 0) == (y < 0) { p } else { -p },
        ;
        lemma_fundamental_div_mod_converse(a, b, sp, 0);
    }
}

fn variable_of(ctx: &BoxContext, v: BoxVariable) -> (r: i64)
    ensures
        r == variable_value(*ctx, v),
{
    match v {
        BoxVariable::X => ctx.x,
        BoxVariable::Y => ctx.y,
        BoxVariable::Width => ctx.w,
        BoxVariable::Height => ctx.h,
        BoxVariable::Red => ctx.r as i64,
        BoxVariable::Green => ctx.g as i64,
        BoxVariable::Blue => ctx.b as i64,
        BoxVariable::Pixels => ctx.pixels,
        BoxVariable::Id => ctx.id as i64,
    }
}

fn apply_operator(op: Operator, a: Exact, b: Exact) -> (r: Exact)
    requires
        a matches Exact::Value(x) ==> -MAX_EXACT <= x <= MAX_EXACT,
        b matches Exact::Value(y) ==> -MAX_EXACT <= y <= MAX_EXACT,
    ensures
        r == exact_binary(op, a, b),
{
    match (a, b) {
        (Exact::Undefined, _) => Exact::Undefined,
        (_, Exact::Undefined) => Exact::Undefined,
        (Exact::Value(x), Exact::Value(y)) => match op {
            Operator::Add => to_exact(x as i128 + y as i128),
            Operator::Subtract => to_exact(x as i128 - y as i128),
            Operator::Multiply => {
                assert(-0x400_0000_0000_0000_0000_0000_0000 <= x * y
                    <= 0x400_0000_0000_0000_0000_0000_0000) by (nonlinear_arith)
                    requires
                        -0x20_0000_0000_0000 <= x <= 0x20_0000_0000_0000,
                        -0x20_0000_0000_0000 <= y <= 0x20_0000_0000_0000,
                ;
                to_exact(x as i128 * y as i128)
            },
            Operator::Divide => {
                if y == 0 {
                    Exact::Undefined
                } else {
                    match divide_exact(x, y) {
                        Some(q) => to_exact(q),
                        None => Exact::Inexact,
                    }
                }
            },
        },
        (Exact::Inexact, Exact::Value(y)) => {
            if op == Operator::Divide && y == 0 {
                Exact::Undefined
            } else {
                Exact::Inexact
            }
        },
        _ => Exact::Inexact,
    }
}

/// Evaluates a formula over whole numbers.
pub fn evaluate(f: &Formula, text: &[char], ctx: &BoxContext) -> (r: Exact)
    requires
        numbers_within(*f, text@.len() as int),
    ensures
        r == exact_value(*f, text@, *ctx),
        r matches Exact::Value(x) ==> -MAX_EXACT <= x <= MAX_EXACT,
    decreases *f,
{
    match f {
        Formula::Number { start, end } => {
            let literal = slice_of(text, *start, *end);
            proof {
                lemma_literal(literal@);
            }
            if literal[0] == '-' || literal[0] == '+' {
                return Exact::Inexact;
            }
            match parse_int(&literal) {
                Some(v) => to_exact(v as i128),
                None => Exact::Inexact,
            }
        },
        Formula::Variable(v) => to_exact(variable_of(ctx, *v) as i128),
        Formula::Negate(a) => match evaluate(a, text, ctx) {
            Exact::Value(x) => to_exact(-(x as i128)),
            other => other,
        },
        Formula::Binary(op, a, b) => {
            let left = evaluate(a, text, ctx);
            let right = evaluate(b, text, ctx);
            apply_operator(*op, left, right)
        },
    }
}

proof fn lemma_literal(s: Seq<char>)
    requires
        s.len() > 0,
    ensures
        s[0] == '-' || s[0] == '+' ==> !all_digits(s),
        s[0] != '-' && s[0] != '+' ==> int_of(s) == if all_digits(s) {
            Some(digits_value(s) as int)
        } else {
            None
        },
{
    if s[0] == '-' || s[0] == '+' {
        assert(!super::numbers::is_digit(s[0]));
    }
}

/// A real number in text: an optional sign, then a number or the name of an
/// infinity or of no number, in any case.
pub open spec fn is_real(s: Seq<char>) -> bool {
    let signed = s.len() > 0 && (s[0] == '-' || s[0] == '+');
    let body = if signed {
        s.drop_first()
    } else {
        s
    };
    ||| is_unsigned_real(body)
    ||| same_letters(body, "inf"@)
    ||| same_letters(body, "infinity"@)
    ||| same_letters(body, "nan"@)
}

/// The lower case form of an ASCII letter; other characters as they are.
pub open spec fn lower(c: char) -> char {
    if 'A' <= c <= 'Z' {
        (c as int + 32) as char
    } else {
        c
    }
}

/// `s` spells the lower case word `word` in any case.
pub open spec fn same_letters(s: Seq<char>, word: Seq<char>) -> bool {
    s.map_values(|c: char| lower(c)) == word
}

fn lower_char(c: char) -> (r: char)
    ensures
        r == lower(c),
{
    if 'A' <= c && c <= 'Z' {
        ((c as u8) + 32) as char
    } else {
        c
    }
}

fn spells_any_case(s: &[char], word: &str) -> (r: bool)
    ensures
        r == same_letters(s@, word@),
{
    let mut v: Vec<char> = Vec::new();
    let mut i: usize = 0;
    while i < s.len()
        invariant
            i <= s@.len(),
            v@.len() == i,
            forall|k: int| 0 <= k < i ==> #[trigger] v@[k] == lower(s@[k]),
        decreases s@.len() - i,
    {
        v.push(lower_char(s[i]));
        i = i + 1;
    }
    assert(v@ =~= s@.map_values(|c: char| lower(c)));
    spells(&v, word)
}

/// Tells whether a text is a real number.
pub fn real_text(s: &[char]) -> (r: bool)
    ensures
        r == is_real(s@),
{
    let signed = s.len() > 0 && (s[0] == '-' || s[0] == '+');
    let body = if signed {
        slice_of(s, 1, s.len())
    } else {
        slice_of(s, 0, s.len())
    };
    assert(signed ==> body@ =~= s@.drop_first());
    assert(!signed ==> body@ =~= s@);
    unsigned_real(&body) || spells_any_case(&body, "inf") || spells_any_case(&body, "infinity")
        || spells_any_case(&body, "nan")
}

/// What a block stands for.
#[derive(Debug)]
pub enum Expansion {
    /// The text itself. An empty text leaves the block as it is.
    Text(String),
    /// The share of the frame that the box covers, in percent with a number of
    /// decimals.
    Percent { decimals: u32 },
    /// A random real number between two real numbers given as text.
    RandomReal { lo: String, hi: String },
    /// The value of a formula that takes real numbers.
    Real(Formula),
    /// Nothing: the block stays as it is.
    Nothing,
}

/// The view of an [`Expansion`].
pub enum Meaning {
    Text(Seq<char>),
    Percent(int),
    RandomReal(Seq<char>, Seq<char>),
    Real(Formula),
    Nothing,
}

impl View for Expansion {
    type V = Meaning;

    open spec fn view(&self) -> Meaning {
        match *self {
            Expansion::Text(t) => Meaning::Text(t@),
            Expansion::Percent { decimals } => Meaning::Percent(decimals as int),
            Expansion::RandomReal { lo, hi } => Meaning::RandomReal(lo@, hi@),
            Expansion::Real(f) => Meaning::Real(f),
            Expansion::Nothing => Meaning::Nothing,
        }
    }
}

/// The number behind `prefix` in a text that consists of both.
pub open spec fn count_behind(inner: Seq<char>, prefix: Seq<char>) -> Option<int> {
    if starts_with(inner, prefix) {
        i64_of(after(inner, prefix.len() as int))
    } else {
        None
    }
}

/// The character set and the length that a block for random text names.
pub open spec fn random_text_request(inner: Seq<char>) -> Option<(Seq<char>, int)> {
    if count_behind(inner, "random_alphanumeric_upper_"@) is Some {
        Some((ALNUM_UPPER@, count_behind(inner, "random_alphanumeric_upper_"@)->0))
    } else if count_behind(inner, "random_alphanumeric_lower_"@) is Some {
        Some((ALNUM_LOWER@, count_behind(inner, "random_alphanumeric_lower_"@)->0))
    } else if count_behind(inner, "random_alphanumeric_"@) is Some {
        Some((ALNUM_MIX@, count_behind(inner, "random_alphanumeric_"@)->0))
    } else if count_behind(inner, "random_alphabet_upper_"@) is Some {
        Some((ALPHABET_UPPER@, count_behind(inner, "random_alphabet_upper_"@)->0))
    } else if count_behind(inner, "random_alphabet_lower_"@) is Some {
        Some((ALPHABET_LOWER@, count_behind(inner, "random_alphabet_lower_"@)->0))
    } else if count_behind(inner, "random_alphabet_"@) is Some {
        Some((ALPHABET_MIX@, count_behind(inner, "random_alphabet_"@)->0))
    } else if count_behind(inner, "random_special_"@) is Some {
        Some((SPECIAL@, count_behind(inner, "random_special_"@)->0))
    } else if count_behind(inner, "random_hex_"@) is Some {
        Some((HEXDIGITS@, count_behind(inner, "random_hex_"@)->0))
    } else if count_behind(inner, "random_string_"@) is Some {
        Some((ALL_MIX@, count_behind(inner, "random_string_"@)->0))
    } else {
        None
    }
}

/// The parts behind `prefix`, separated by commas.
pub open spec fn list_behind(inner: Seq<char>, prefix: Seq<char>) -> Seq<Seq<char>> {
    split_at_char(after(inner, prefix.len() as int), ',')
}

/// The number of decimals that a block for the share of the frame names.
pub open spec fn percent_request(inner: Seq<char>) -> Option<int> {
    match count_behind(inner, "box_pixel_percent_"@) {
        Some(n) => if 0 <= n <= 5 {
            Some(n)
        } else {
            None
        },
        None => None,
    }
}

/// The text of a block that names a property of the box.
pub open spec fn property_text(inner: Seq<char>, ctx: BoxContext) -> Option<Seq<char>> {
    if inner == "box_color_rgb_hex_upper"@ {
        Some(hex_text(ctx.r, true) + hex_text(ctx.g, true) + hex_text(ctx.b, true))
    } else if inner == "box_color_rgb_hex_lower"@ {
        Some(hex_text(ctx.r, false) + hex_text(ctx.g, false) + hex_text(ctx.b, false))
    } else if inner == "box_color_rgb"@ {
        Some(
            padded_text(ctx.r) + seq![','] + padded_text(ctx.g) + seq![','] + padded_text(ctx.b),
        )
    } else if inner == "box_color_r_hex_upper"@ {
        Some(hex_text(ctx.r, true))
    } else if inner == "box_color_g_hex_upper"@ {
        Some(hex_text(ctx.g, true))
    } else if inner == "box_color_b_hex_upper"@ {
        Some(hex_text(ctx.b, true))
    } else if inner == "box_color_r_hex_lower"@ {
        Some(hex_text(ctx.r, false))
    } else if inner == "box_color_g_hex_lower"@ {
        Some(hex_text(ctx.g, false))
    } else if inner == "box_color_b_hex_lower"@ {
        Some(hex_text(ctx.b, false))
    } else if inner == "box_color_r"@ {
        Some(int_text(ctx.r as int))
    } else if inner == "box_color_g"@ {
        Some(int_text(ctx.g as int))
    } else if inner == "box_color_b"@ {
        Some(int_text(ctx.b as int))
    } else if inner == "box_pixel_count"@ {
        Some(int_text(ctx.pixels as int))
    } else if inner == "box_id"@ {
        Some(int_text(ctx.id as int))
    } else {
        None
    }
}

/// What a block means that can only be a formula.
pub open spec fn formula_meaning(inner: Seq<char>, ctx: BoxContext) -> Meaning {
    match formula_of(inner) {
        Some(f) => match exact_value(f, inner, ctx) {
            Exact::Value(v) => Meaning::Text(int_text(v as int)),
            Exact::Undefined => Meaning::Nothing,
            Exact::Inexact => Meaning::Real(f),
        },
        None => Meaning::Nothing,
    }
}

/// What a block for random values means in state `s`, with the state behind
/// it, or nothing if the block is not for random values. A request for random
/// text of a length that no text can have leaves the block as it is.
pub open spec fn random_meaning(inner: Seq<char>, s: u64) -> Option<(Meaning, u64)> {
    let choices = list_behind(inner, "random_choice_"@);
    let reals = list_behind(inner, "random_float_"@);
    let ints = list_behind(inner, "random_int_"@);
    if random_text_request(inner) is Some {
        let (charset, n) = random_text_request(inner)->0;
        if 0 <= n <= isize::MAX {
            Some(
                (
                    Meaning::Text(random_chars(s, vstd::utf8::encode_utf8(charset), n as nat)),
                    state_after(s, n as nat),
                ),
            )
        } else {
            Some((Meaning::Nothing, s))
        }
    } else if starts_with(inner, "random_choice_"@) {
        Some((Meaning::Text(choices[index_draw(s, choices.len())]), next_state(s)))
    } else if starts_with(inner, "random_float_"@) && reals.len() == 2 && is_real(reals[0])
        && is_real(reals[1]) {
        Some((Meaning::RandomReal(reals[0], reals[1]), s))
    } else if starts_with(inner, "random_int_"@) && ints.len() == 2 && i64_of(ints[0]) is Some
        && i64_of(ints[1]) is Some {
        let lo = i64_of(ints[0])->0;
        let hi = i64_of(ints[1])->0;
        Some(
            (
                Meaning::Text(int_text(range_draw(s, lo, hi))),
                if hi <= lo {
                    s
                } else {
                    next_state(s)
                },
            ),
        )
    } else if inner == "random_bool"@ {
        Some(
            (
                Meaning::Text(
                    if draw(s) % 2 == 1 {
                        "True"@
                    } else {
                        "False"@
                    },
                ),
                next_state(s),
            ),
        )
    } else {
        None
    }
}

/// What a block means in state `s`, with the state behind it: a random value,
/// the share of the frame, a property of the box or a formula, tried in this
/// order.
#[verifier::opaque]
pub open spec fn block_meaning(inner: Seq<char>, ctx: BoxContext, s: u64) -> (Meaning, u64) {
    if random_meaning(inner, s) is Some {
        random_meaning(inner, s)->0
    } else if percent_request(inner) is Some {
        (Meaning::Percent(percent_request(inner)->0), s)
    } else if property_text(inner, ctx) is Some {
        (Meaning::Text(property_text(inner, ctx)->0), s)
    } else {
        (formula_meaning(inner, ctx), s)
    }
}

fn read_count(inner: &[char], prefix: &str) -> (r: Option<i64>)
    ensures
        match r {
            Some(n) => count_behind(inner@, prefix@) == Some(n as int),
            None => count_behind(inner@, prefix@) is None,
        },
{
    match strip_prefix(inner, prefix) {
        Some(rest) => parse_int(&rest),
        None => None,
    }
}

fn read_random_text(inner: &[char]) -> (r: Option<(&'static str, i64)>)
    ensures
        match r {
            Some((charset, n)) => random_text_request(inner@) == Some((charset@, n as int))
                && charset@.len() > 0,
            None => random_text_request(inner@) is None,
        },
{
    proof {
        reveal_strlit("ABCDEFGHIJKLMNOPQRSTUVWXYZ0123456789");
        reveal_strlit("abcdefghijklmnopqrstuvwxyz0123456789");
        reveal_strlit("abcdefghijklmnopqrstuvwxyzABCDEFGHIJKLMNOPQRSTUVWXYZ0123456789");
        reveal_strlit("ABCDEFGHIJKLMNOPQRSTUVWXYZ");
        reveal_strlit("abcdefghijklmnopqrstuvwxyz");
        reveal_strlit("abcdefghijklmnopqrstuvwxyzABCDEFGHIJKLMNOPQRSTUVWXYZ");
        reveal_strlit("!\"#$%&'()*+,-./:;<=>?@[\\]^_`{|}~");
        reveal_strlit("0123456789abcdef");
        reveal_strlit(
            "abcdefghijklmnopqrstuvwxyzABCDEFGHIJKLMNOPQRSTUVWXYZ0123456789!\"#$%&'()*+,-./:;<=>?@[\\]^_`{|}~",
        );
    }
    if let Some(n) = read_count(inner, "random_alphanumeric_upper_") {
        return Some((ALNUM_UPPER, n));
    }
    if let Some(n) = read_count(inner, "random_alphanumeric_lower_") {
        return Some((ALNUM_LOWER, n));
    }
    if let Some(n) = read_count(inner, "random_alphanumeric_") {
        return Some((ALNUM_MIX, n));
    }
    if let Some(n) = read_count(inner, "random_alphabet_upper_") {
        return Some((ALPHABET_UPPER, n));
    }
    if let Some(n) = read_count(inner, "random_alphabet_lower_") {
        return Some((ALPHABET_LOWER, n));
    }
    if let Some(n) = read_count(inner, "random_alphabet_") {
        return Some((ALPHABET_MIX, n));
    }
    if let Some(n) = read_count(inner, "random_special_") {
        return Some((SPECIAL, n));
    }
    if let Some(n) = read_count(inner, "random_hex_") {
        return Some((HEXDIGITS, n));
    }
    if let Some(n) = read_count(inner, "random_string_") {
        return Some((ALL_MIX, n));
    }
    None
}

fn read_property(inner: &[char], ctx: &BoxContext) -> (r: Option<String>)
    ensures
        match r {
            Some(text) => property_text(inner@, *ctx) == Some(text@),
            None => property_text(inner@, *ctx) is None,
        },
{
    if spells(inner, "box_color_rgb_hex_upper") {
        return Some(
            hex_byte(ctx.r, true).concat(&hex_byte(ctx.g, true)).concat(&hex_byte(ctx.b, true)),
        );
    }
    if spells(inner, "box_color_rgb_hex_lower") {
        return Some(
            hex_byte(ctx.r, false).concat(&hex_byte(ctx.g, false)).concat(&hex_byte(ctx.b, false)),
        );
    }
    if spells(inner, "box_color_rgb") {
        proof {
            reveal_strlit(",");
            assert(","@ =~= seq![',']);
        }
        return Some(
            padded_byte(ctx.r).concat(",").concat(&padded_byte(ctx.g)).concat(",").concat(
                &padded_byte(ctx.b),
            ),
        );
    }
    if spells(inner, "box_color_r_hex_upper") {
        return Some(hex_byte(ctx.r, true));
    }
    if spells(inner, "box_color_g_hex_upper") {
        return Some(hex_byte(ctx.g, true));
    }
    if spells(inner, "box_color_b_hex_upper") {
        return Some(hex_byte(ctx.b, true));
    }
    if spells(inner, "box_color_r_hex_lower") {
        return Some(hex_byte(ctx.r, false));
    }
    if spells(inner, "box_color_g_hex_lower") {
        return Some(hex_byte(ctx.g, false));
    }
    if spells(inner, "box_color_b_hex_lower") {
        return Some(hex_byte(ctx.b, false));
    }
    if spells(inner, "box_color_r") {
        return Some(decimal(ctx.r as i64));
    }
    if spells(inner, "box_color_g") {
        return Some(decimal(ctx.g as i64));
    }
    if spells(inner, "box_color_b") {
        return Some(decimal(ctx.b as i64));
    }
    if spells(inner, "box_pixel_count") {
        return Some(decimal(ctx.pixels));
    }
    if spells(inner, "box_id") {
        return Some(decimal(ctx.id as i64));
    }
    None
}

fn read_random(inner: &[char], rng: &mut Rng) -> (r: Option<Expansion>)
    ensures
        match r {
            Some(e) => random_meaning(inner@, old(rng)@) == Some((e@, final(rng)@)),
            None => random_meaning(inner@, old(rng)@) is None && final(rng)@ == old(rng)@,
        },
{
    if let Some((charset, n)) = read_random_text(inner) {
        if n < 0 || n as u64 > isize::MAX as u64 {
            return Some(Expansion::Nothing);
        }
        return Some(Expansion::Text(rng.random_from(charset, n as usize)));
    }
    if let Some(rest) = strip_prefix(inner, "random_choice_") {
        let options = split_chars(&rest, ',');
        let k = rng.next_u32() as usize % options.len();
        return Some(Expansion::Text(string_of(&options[k])));
    }
    if let Some(rest) = strip_prefix(inner, "random_float_") {
        let parts = split_chars(&rest, ',');
        if parts.len() == 2 && real_text(&parts[0]) && real_text(&parts[1]) {
            return Some(
                Expansion::RandomReal { lo: string_of(&parts[0]), hi: string_of(&parts[1]) },
            );
        }
    }
    if let Some(rest) = strip_prefix(inner, "random_int_") {
        let parts = split_chars(&rest, ',');
        if parts.len() == 2 {
            if let Some(lo) = parse_int(&parts[0]) {
                if let Some(hi) = parse_int(&parts[1]) {
                    return Some(Expansion::Text(decimal(rng.next_range(lo, hi))));
                }
            }
        }
    }
    if spells(inner, "random_bool") {
        let text = if rng.next_u32() % 2 == 1 {
            "True".to_string()
        } else {
            "False".to_string()
        };
        return Some(Expansion::Text(text));
    }
    None
}

/// Finds out what the inside of a `$[...]` block stands for.
pub fn eval_wildcard(inner: &[char], ctx: &BoxContext, rng: &mut Rng) -> (e: Expansion)
    ensures
        (e@, final(rng)@) == block_meaning(inner@, *ctx, old(rng)@),
{
    proof {
        reveal(block_meaning);
    }
    if let Some(e) = read_random(inner, rng) {
        return e;
    }
    if let Some(n) = read_count(inner, "box_pixel_percent_") {
        if 0 <= n && n <= 5 {
            return Expansion::Percent { decimals: n as u32 };
        }
    }
    if let Some(text) = read_property(inner, ctx) {
        return Expansion::Text(text);
    }
    match parse_formula(inner) {
        Some(f) => match evaluate(&f, inner, ctx) {
            Exact::Value(v) => Expansion::Text(decimal(v)),
            Exact::Undefined => Expansion::Nothing,
            Exact::Inexact => Expansion::Real(f),
        },
        None => Expansion::Nothing,
    }
}

/// A block that means nothing draws nothing from the random generator.
pub proof fn law_unknown_block_draws_nothing(inner: Seq<char>, ctx: BoxContext, s: u64)
    requires
        block_meaning(inner, ctx, s).0 is Nothing,
    ensures
        block_meaning(inner, ctx, s).1 == s,
{
    reveal(block_meaning);
}

/// A block for random text of a length that no text can have means nothing.
pub proof fn law_impossible_length_means_nothing(inner: Seq<char>, ctx: BoxContext, s: u64)
    requires
        random_text_request(inner) is Some,
        !(0 <= (random_text_request(inner)->0).1 <= isize::MAX),
    ensures
        block_meaning(inner, ctx, s) == (Meaning::Nothing, s),
{
    reveal(block_meaning);
}

} // verus!
