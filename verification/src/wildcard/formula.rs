//! Arithmetic formulas over the numbers of a box.
use super::chars::{slice_of, spells};
use super::numbers::is_digit;
use vstd::prelude::*;

verus! {

/// A number of a box that formulas can name.
#[derive(Debug, Clone, Copy, PartialEq, Eq, Structural)]
pub enum BoxVariable {
    X,
    Y,
    Width,
    Height,
    Red,
    Green,
    Blue,
    Pixels,
    Id,
}

/// An operator between two operands.
#[derive(Debug, Clone, Copy, PartialEq, Eq, Structural)]
pub enum Operator {
    Add,
    Subtract,
    Multiply,
    Divide,
}

/// A formula. A number is given by where its text stands: from `start` up to
/// `end`.
#[derive(Debug)]
pub enum Formula {
    Number { start: usize, end: usize },
    Variable(BoxVariable),
    Negate(Box<Formula>),
    Binary(Operator, Box<Formula>, Box<Formula>),
}

/// Every number of a formula stands in a text of length `n`.
pub open spec fn numbers_within(f: Formula, n: int) -> bool
    decreases f,
{
    match f {
        Formula::Number { start, end } => start < end <= n,
        Formula::Variable(_) => true,
        Formula::Negate(a) => numbers_within(*a, n),
        Formula::Binary(_, a, b) => numbers_within(*a, n) && numbers_within(*b, n),
    }
}

/// The variable with a name.
pub open spec fn variable_named(name: Seq<char>) -> Option<BoxVariable> {
    if name == "box_x_position"@ {
        Some(BoxVariable::X)
    } else if name == "box_y_position"@ {
        Some(BoxVariable::Y)
    } else if name == "box_width"@ {
        Some(BoxVariable::Width)
    } else if name == "box_height"@ {
        Some(BoxVariable::Height)
    } else if name == "box_color_r"@ {
        Some(BoxVariable::Red)
    } else if name == "box_color_g"@ {
        Some(BoxVariable::Green)
    } else if name == "box_color_b"@ {
        Some(BoxVariable::Blue)
    } else if name == "box_pixel_count"@ {
        Some(BoxVariable::Pixels)
    } else if name == "box_id"@ {
        Some(BoxVariable::Id)
    } else {
        None
    }
}

/// `c` is an ASCII letter.
pub open spec fn is_letter(c: char) -> bool {
    'a' <= c <= 'z' || 'A' <= c <= 'Z'
}

/// `c` can stand in a name.
pub open spec fn is_name_char(c: char) -> bool {
    is_letter(c) || is_digit(c) || c == '_'
}

/// `c` marks an exponent.
pub open spec fn is_exponent_mark(c: char) -> bool {
    c == 'e' || c == 'E'
}

/// The first position from `i` on that holds no space.
pub open spec fn skip_spaces(s: Seq<char>, i: int) -> int
    decreases s.len() - i,
{
    if 0 <= i < s.len() && s[i] == ' ' {
        skip_spaces(s, i + 1)
    } else {
        i
    }
}

/// The first position from `i` on that holds no character of a name.
pub open spec fn skip_name(s: Seq<char>, i: int) -> int
    decreases s.len() - i,
{
    if 0 <= i < s.len() && is_name_char(s[i]) {
        skip_name(s, i + 1)
    } else {
        i
    }
}

/// The first position from `i` on that holds no digit.
pub open spec fn skip_digits(s: Seq<char>, i: int) -> int
    decreases s.len() - i,
{
    if 0 <= i < s.len() && is_digit(s[i]) {
        skip_digits(s, i + 1)
    } else {
        i
    }
}

/// Position `i` can belong to a number whose text begins at `start`: a digit,
/// a point, an exponent mark, or a sign right behind an exponent mark.
pub open spec fn in_number(s: Seq<char>, start: int, i: int) -> bool {
    ||| is_digit(s[i])
    ||| s[i] == '.'
    ||| is_exponent_mark(s[i])
    ||| (s[i] == '+' || s[i] == '-') && start < i && is_exponent_mark(s[i - 1])
}

/// The first position from `i` on that cannot belong to a number whose text
/// begins at `start`.
pub open spec fn skip_number(s: Seq<char>, start: int, i: int) -> int
    decreases s.len() - i,
{
    if 0 <= i < s.len() && in_number(s, start, i) {
        skip_number(s, start, i + 1)
    } else {
        i
    }
}

/// The end of an exponent that begins at `i`: a mark, an optional sign and
/// digits.
pub open spec fn exponent_end(s: Seq<char>, i: int) -> Option<int> {
    if 0 <= i < s.len() && is_exponent_mark(s[i]) {
        let d = if i + 1 < s.len() && (s[i + 1] == '+' || s[i + 1] == '-') {
            i + 2
        } else {
            i + 1
        };
        let end = skip_digits(s, d);
        if d < end {
            Some(end)
        } else {
            None
        }
    } else {
        Some(i)
    }
}

/// A number without a sign: digits with at most one point among them or at an
/// end, at least one digit, and an optional exponent.
pub open spec fn is_unsigned_real(s: Seq<char>) -> bool {
    let a = skip_digits(s, 0);
    let pointed = 0 <= a < s.len() && s[a] == '.';
    let b = if pointed {
        skip_digits(s, a + 1)
    } else {
        a
    };
    &&& 0 < a || pointed && a + 1 < b
    &&& exponent_end(s, b) == Some(s.len() as int)
}

pub proof fn lemma_skip_spaces(s: Seq<char>, i: int)
    requires
        0 <= i <= s.len(),
    ensures
        i <= skip_spaces(s, i) <= s.len(),
    decreases s.len() - i,
{
    if i < s.len() && s[i] == ' ' {
        lemma_skip_spaces(s, i + 1);
    }
}

/// The formula that begins at `i` as a number, a name or a formula in
/// brackets, with the position behind it.
pub open spec fn atom_at(s: Seq<char>, i: int) -> Option<(Formula, int)>
    decreases s.len() - i, 0int,
{
    if !(0 <= i < s.len()) {
        None
    } else if s[i] == '(' {
        match formula_at(s, i + 1) {
            Some((f, j)) => if 0 <= j < s.len() && s[j] == ')' {
                Some((f, j + 1))
            } else {
                None
            },
            None => None,
        }
    } else if is_digit(s[i]) || s[i] == '.' {
        let j = skip_number(s, i, i);
        if is_unsigned_real(s.subrange(i, j)) {
            Some((Formula::Number { start: i as usize, end: j as usize }, j))
        } else {
            None
        }
    } else if is_letter(s[i]) {
        let j = skip_name(s, i);
        match variable_named(s.subrange(i, j)) {
            Some(v) => Some((Formula::Variable(v), j)),
            None => None,
        }
    } else {
        None
    }
}

/// The formula that begins at `i`, spaces aside, as signs before an atom.
pub open spec fn factor_at(s: Seq<char>, i: int) -> Option<(Formula, int)>
    decreases s.len() - i, 1int,
{
    let k = skip_spaces(s, i);
    if !(i <= k < s.len()) {
        None
    } else if s[k] == '-' {
        match factor_at(s, k + 1) {
            Some((f, j)) => Some((Formula::Negate(Box::new(f)), j)),
            None => None,
        }
    } else if s[k] == '+' {
        factor_at(s, k + 1)
    } else {
        atom_at(s, k)
    }
}

/// The products and quotients that continue `left` from `i` on, with the
/// position of what follows them.
pub open spec fn factors_from(s: Seq<char>, left: Formula, i: int) -> Option<(Formula, int)>
    decreases s.len() - i, 2int,
{
    let k = skip_spaces(s, i);
    if i <= k < s.len() && (s[k] == '*' || s[k] == '/') {
        let op = if s[k] == '*' {
            Operator::Multiply
        } else {
            Operator::Divide
        };
        match factor_at(s, k + 1) {
            Some((f, j)) => if k < j <= s.len() {
                factors_from(s, Formula::Binary(op, Box::new(left), Box::new(f)), j)
            } else {
                None
            },
            None => None,
        }
    } else {
        Some((left, k))
    }
}

/// The formula that begins at `i` as a product or quotient of factors.
pub open spec fn term_at(s: Seq<char>, i: int) -> Option<(Formula, int)>
    decreases s.len() - i, 3int,
{
    match factor_at(s, i) {
        Some((f, j)) => if i < j <= s.len() {
            factors_from(s, f, j)
        } else {
            None
        },
        None => None,
    }
}

/// The sums and differences that continue `left` from `i` on, with the
/// position of what follows them.
pub open spec fn terms_from(s: Seq<char>, left: Formula, i: int) -> Option<(Formula, int)>
    decreases s.len() - i, 4int,
{
    let k = skip_spaces(s, i);
    if i <= k < s.len() && (s[k] == '+' || s[k] == '-') {
        let op = if s[k] == '+' {
            Operator::Add
        } else {
            Operator::Subtract
        };
        match term_at(s, k + 1) {
            Some((f, j)) => if k < j <= s.len() {
                terms_from(s, Formula::Binary(op, Box::new(left), Box::new(f)), j)
            } else {
                None
            },
            None => None,
        }
    } else {
        Some((left, k))
    }
}

/// The formula that begins at `i` as a sum or difference of terms, with the
/// position of what follows it.
pub open spec fn formula_at(s: Seq<char>, i: int) -> Option<(Formula, int)>
    decreases s.len() - i, 5int,
{
    match term_at(s, i) {
        Some((f, j)) => if i < j <= s.len() {
            terms_from(s, f, j)
        } else {
            None
        },
        None => None,
    }
}

/// The formula that a text spells.
pub open spec fn formula_of(s: Seq<char>) -> Option<Formula> {
    match formula_at(s, 0) {
        Some((f, j)) => if j == s.len() {
            Some(f)
        } else {
            None
        },
        None => None,
    }
}

fn digit_here(c: char) -> (r: bool)
    ensures
        r == is_digit(c),
{
    '0' <= c && c <= '9'
}

fn letter_here(c: char) -> (r: bool)
    ensures
        r == is_letter(c),
{
    ('a' <= c && c <= 'z') || ('A' <= c && c <= 'Z')
}

fn name_char_here(c: char) -> (r: bool)
    ensures
        r == is_name_char(c),
{
    letter_here(c) || digit_here(c) || c == '_'
}

fn exponent_mark_here(c: char) -> (r: bool)
    ensures
        r == is_exponent_mark(c),
{
    c == 'e' || c == 'E'
}

fn past_spaces(s: &[char], from: usize) -> (r: usize)
    requires
        from <= s@.len(),
    ensures
        r == skip_spaces(s@, from as int),
        from <= r <= s@.len(),
{
    let mut i: usize = from;
    while i < s.len() && s[i] == ' '
        invariant
            from <= i <= s@.len(),
            skip_spaces(s@, from as int) == skip_spaces(s@, i as int),
        decreases s@.len() - i,
    {
        i = i + 1;
    }
    i
}

fn past_name(s: &[char], from: usize) -> (r: usize)
    requires
        from <= s@.len(),
    ensures
        r == skip_name(s@, from as int),
        from <= r <= s@.len(),
        from < s@.len() && is_name_char(s@[from as int]) ==> from < r,
{
    let mut i: usize = from;
    while i < s.len() && name_char_here(s[i])
        invariant
            from <= i <= s@.len(),
            skip_name(s@, from as int) == skip_name(s@, i as int),
        decreases s@.len() - i,
    {
        i = i + 1;
    }
    i
}

fn past_digits(s: &[char], from: usize) -> (r: usize)
    requires
        from <= s@.len(),
    ensures
        r == skip_digits(s@, from as int),
        from <= r <= s@.len(),
{
    let mut i: usize = from;
    while i < s.len() && digit_here(s[i])
        invariant
            from <= i <= s@.len(),
            skip_digits(s@, from as int) == skip_digits(s@, i as int),
        decreases s@.len() - i,
    {
        i = i + 1;
    }
    i
}

fn number_here(s: &[char], start: usize, i: usize) -> (r: bool)
    requires
        start <= i < s@.len(),
    ensures
        r == in_number(s@, start as int, i as int),
{
    let c = s[i];
    if digit_here(c) || c == '.' || exponent_mark_here(c) {
        true
    } else if (c == '+' || c == '-') && start < i {
        exponent_mark_here(s[i - 1])
    } else {
        false
    }
}

fn past_number(s: &[char], start: usize) -> (r: usize)
    requires
        start < s@.len(),
        is_digit(s@[start as int]) || s@[start as int] == '.',
    ensures
        r == skip_number(s@, start as int, start as int),
        start < r <= s@.len(),
{
    let mut i: usize = start;
    while i < s.len() && number_here(s, start, i)
        invariant
            start <= i <= s@.len(),
            skip_number(s@, start as int, start as int) == skip_number(s@, start as int, i as int),
        decreases s@.len() - i,
    {
        i = i + 1;
    }
    i
}

/// Tells whether a text is a number without a sign.
pub fn unsigned_real(s: &[char]) -> (r: bool)
    ensures
        r == is_unsigned_real(s@),
{
    let n = s.len();
    let a = past_digits(s, 0);
    let pointed = a < n && s[a] == '.';
    let b = if pointed {
        past_digits(s, a + 1)
    } else {
        a
    };
    if !(0 < a || (pointed && a + 1 < b)) {
        return false;
    }
    if b < n && exponent_mark_here(s[b]) {
        let d = if b + 1 < n && (s[b + 1] == '+' || s[b + 1] == '-') {
            b + 2
        } else {
            b + 1
        };
        let end = past_digits(s, d);
        d < end && end == n
    } else {
        b == n
    }
}

fn find_variable(name: &[char]) -> (r: Option<BoxVariable>)
    ensures
        r == variable_named(name@),
{
    if spells(name, "box_x_position") {
        Some(BoxVariable::X)
    } else if spells(name, "box_y_position") {
        Some(BoxVariable::Y)
    } else if spells(name, "box_width") {
        Some(BoxVariable::Width)
    } else if spells(name, "box_height") {
        Some(BoxVariable::Height)
    } else if spells(name, "box_color_r") {
        Some(BoxVariable::Red)
    } else if spells(name, "box_color_g") {
        Some(BoxVariable::Green)
    } else if spells(name, "box_color_b") {
        Some(BoxVariable::Blue)
    } else if spells(name, "box_pixel_count") {
        Some(BoxVariable::Pixels)
    } else if spells(name, "box_id") {
        Some(BoxVariable::Id)
    } else {
        None
    }
}

/// What a parser returns for a text from `i` on agrees with `expected`.
spec fn parsed(
    r: Option<(Formula, usize)>,
    expected: Option<(Formula, int)>,
    i: int,
    n: int,
) -> bool {
    match r {
        Some((f, j)) => expected == Some((f, j as int)) && i < j <= n && numbers_within(f, n),
        None => expected is None,
    }
}

fn parse_atom(s: &[char], i: usize) -> (r: Option<(Formula, usize)>)
    requires
        i < s@.len(),
    ensures
        parsed(r, atom_at(s@, i as int), i as int, s@.len() as int),
    decreases s@.len() - i, 0int,
{
    let c = s[i];
    if c == '(' {
        match parse_terms(s, i + 1) {
            Some((f, j)) => {
                if j < s.len() && s[j] == ')' {
                    Some((f, j + 1))
                } else {
                    None
                }
            },
            None => None,
        }
    } else if digit_here(c) || c == '.' {
        let j = past_number(s, i);
        let text = slice_of(s, i, j);
        if unsigned_real(&text) {
            Some((Formula::Number { start: i, end: j }, j))
        } else {
            None
        }
    } else if letter_here(c) {
        let j = past_name(s, i);
        let name = slice_of(s, i, j);
        match find_variable(&name) {
            Some(v) => Some((Formula::Variable(v), j)),
            None => None,
        }
    } else {
        None
    }
}

fn parse_factor(s: &[char], i: usize) -> (r: Option<(Formula, usize)>)
    requires
        i <= s@.len(),
    ensures
        parsed(r, factor_at(s@, i as int), i as int, s@.len() as int),
    decreases s@.len() - i, 1int,
{
    let k = past_spaces(s, i);
    if k == s.len() {
        None
    } else if s[k] == '-' {
        match parse_factor(s, k + 1) {
            Some((f, j)) => Some((Formula::Negate(Box::new(f)), j)),
            None => None,
        }
    } else if s[k] == '+' {
        parse_factor(s, k + 1)
    } else {
        parse_atom(s, k)
    }
}

fn parse_factors(s: &[char], i: usize) -> (r: Option<(Formula, usize)>)
    requires
        i <= s@.len(),
    ensures
        parsed(r, term_at(s@, i as int), i as int, s@.len() as int),
    decreases s@.len() - i, 3int,
{
    let (mut left, mut at) = match parse_factor(s, i) {
        Some((f, j)) => (f, j),
        None => {
            return None;
        },
    };
    loop
        invariant
            i < at <= s@.len(),
            numbers_within(left, s@.len() as int),
            term_at(s@, i as int) == factors_from(s@, left, at as int),
        decreases s@.len() - at,
    {
        let k = past_spaces(s, at);
        let op = if k < s.len() && s[k] == '*' {
            Operator::Multiply
        } else if k < s.len() && s[k] == '/' {
            Operator::Divide
        } else {
            return Some((left, k));
        };
        match parse_factor(s, k + 1) {
            Some((f, j)) => {
                left = Formula::Binary(op, Box::new(left), Box::new(f));
                at = j;
            },
            None => {
                return None;
            },
        }
    }
}

fn parse_terms(s: &[char], i: usize) -> (r: Option<(Formula, usize)>)
    requires
        i <= s@.len(),
    ensures
        parsed(r, formula_at(s@, i as int), i as int, s@.len() as int),
    decreases s@.len() - i, 5int,
{
    let (mut left, mut at) = match parse_factors(s, i) {
        Some((f, j)) => (f, j),
        None => {
            return None;
        },
    };
    loop
        invariant
            i < at <= s@.len(),
            numbers_within(left, s@.len() as int),
            formula_at(s@, i as int) == terms_from(s@, left, at as int),
        decreases s@.len() - at,
    {
        let k = past_spaces(s, at);
        let op = if k < s.len() && s[k] == '+' {
            Operator::Add
        } else if k < s.len() && s[k] == '-' {
            Operator::Subtract
        } else {
            return Some((left, k));
        };
        match parse_factors(s, k + 1) {
            Some((f, j)) => {
                left = Formula::Binary(op, Box::new(left), Box::new(f));
                at = j;
            },
            None => {
                return None;
            },
        }
    }
}

/// Reads the formula that a text spells.
pub fn parse_formula(s: &[char]) -> (r: Option<Formula>)
    ensures
        r == formula_of(s@),
        r matches Some(f) ==> numbers_within(f, s@.len() as int),
{
    match parse_terms(s, 0) {
        Some((f, j)) => {
            if j == s.len() {
                Some(f)
            } else {
                None
            }
        },
        None => None,
    }
}

} // verus!
