//! The grammar of formulas.
//!
//! A sum is a term, or a sum, a plus or minus sign and a term. A term is a
//! factor, or a term, a times or division sign and a factor. A factor is an
//! atom, or a sign and a factor. An atom is a number, a name, or a sum in
//! brackets. Spaces may stand before factors, before signs between operands,
//! and before closing brackets.
use super::formula::{
    atom_at, factor_at, factors_from, formula_at, formula_of, in_number,
    is_exponent_mark, is_letter, is_name_char, is_unsigned_real, skip_digits, skip_name,
    skip_number, skip_spaces, term_at, terms_from, variable_named, Formula, Operator,
};
use super::numbers::is_digit;
use vstd::prelude::*;

verus! {

/// Nothing but spaces stands from `i` up to `k`.
pub open spec fn gap(s: Seq<char>, i: int, k: int) -> bool {
    &&& i <= k
    &&& forall|n: int| i <= n < k ==> #[trigger] s[n] == ' '
}

/// The sign of an operator.
pub open spec fn sign_of(op: Operator) -> char {
    match op {
        Operator::Add => '+',
        Operator::Subtract => '-',
        Operator::Multiply => '*',
        Operator::Divide => '/',
    }
}

/// A closing bracket ends at `j`, with nothing but spaces from `k` on before it.
pub open spec fn closes(s: Seq<char>, k: int, j: int) -> bool {
    s[j - 1] == ')' && gap(s, k, j - 1)
}

/// The text from `i` up to `j` spells the atom `f`.
pub open spec fn spells_atom(s: Seq<char>, i: int, j: int, f: Formula) -> bool
    decreases j - i, 0int,
{
    &&& 0 <= i < j <= s.len()
    &&& {
        ||| f == Formula::Number { start: i as usize, end: j as usize } && is_unsigned_real(
            s.subrange(i, j),
        )
        ||| f is Variable && variable_named(s.subrange(i, j)) == Some(f->Variable_0)
        ||| s[i] == '(' && exists|k: int|
            i + 1 < k < j && #[trigger] closes(s, k, j) && spells_sum(s, i + 1, k, f)
    }
}

/// The text from `i` up to `j` spells the factor `f`.
pub open spec fn spells_factor(s: Seq<char>, i: int, j: int, f: Formula) -> bool
    decreases j - i, 1int,
{
    exists|k: int|
        0 <= i <= k < j <= s.len() && #[trigger] gap(s, i, k) && {
            ||| spells_atom(s, k, j, f)
            ||| s[k] == '+' && spells_factor(s, k + 1, j, f)
            ||| s[k] == '-' && f is Negate && spells_factor(s, k + 1, j, *f->Negate_0)
        }
}

/// The text from `i` up to `j` spells the term `f`.
pub open spec fn spells_term(s: Seq<char>, i: int, j: int, f: Formula) -> bool
    decreases j - i, 2int,
{
    ||| spells_factor(s, i, j, f)
    ||| f is Binary && (f->Binary_0 == Operator::Multiply || f->Binary_0 == Operator::Divide)
        && exists|k: int, l: int|
        0 <= i < k <= l < j <= s.len() && #[trigger] gap(s, k, l) && s[l] == sign_of(f->Binary_0)
            && spells_term(s, i, k, *f->Binary_1) && spells_factor(s, l + 1, j, *f->Binary_2)
}

/// The text from `i` up to `j` spells the sum `f`.
pub open spec fn spells_sum(s: Seq<char>, i: int, j: int, f: Formula) -> bool
    decreases j - i, 3int,
{
    ||| spells_term(s, i, j, f)
    ||| f is Binary && (f->Binary_0 == Operator::Add || f->Binary_0 == Operator::Subtract)
        && exists|k: int, l: int|
        0 <= i < k <= l < j <= s.len() && #[trigger] gap(s, k, l) && s[l] == sign_of(f->Binary_0)
            && spells_sum(s, i, k, *f->Binary_1) && spells_term(s, l + 1, j, *f->Binary_2)
}

/// The text spells the formula `f`.
pub open spec fn is_formula(s: Seq<char>, f: Formula) -> bool {
    exists|j: int| #[trigger] spells_sum(s, 0, j, f) && gap(s, j, s.len() as int)
}

proof fn lemma_skip_spaces_gap(s: Seq<char>, i: int)
    requires
        0 <= i <= s.len(),
    ensures
        i <= skip_spaces(s, i) <= s.len(),
        gap(s, i, skip_spaces(s, i)),
        skip_spaces(s, i) < s.len() ==> s[skip_spaces(s, i)] != ' ',
    decreases s.len() - i,
{
    if i < s.len() && s[i] == ' ' {
        lemma_skip_spaces_gap(s, i + 1);
    }
}

proof fn lemma_gap_joins(s: Seq<char>, i: int, k: int, l: int)
    requires
        gap(s, i, k),
        gap(s, k, l),
    ensures
        gap(s, i, l),
{
}

proof fn lemma_skip_number(s: Seq<char>, start: int, i: int)
    requires
        0 <= start <= i <= s.len(),
    ensures
        i <= skip_number(s, start, i) <= s.len(),
        i < s.len() && in_number(s, start, i) ==> i < skip_number(s, start, i),
    decreases s.len() - i,
{
    if i < s.len() && in_number(s, start, i) {
        lemma_skip_number(s, start, i + 1);
    }
}

proof fn lemma_skip_name(s: Seq<char>, i: int)
    requires
        0 <= i <= s.len(),
    ensures
        i <= skip_name(s, i) <= s.len(),
        i < s.len() && is_name_char(s[i]) ==> i < skip_name(s, i),
    decreases s.len() - i,
{
    if i < s.len() && is_name_char(s[i]) {
        lemma_skip_name(s, i + 1);
    }
}

/// An atom that is read is one of the grammar.
proof fn lemma_atom_sound(s: Seq<char>, i: int)
    requires
        0 <= i <= s.len(),
    ensures
        atom_at(s, i) matches Some((f, j)) ==> spells_atom(s, i, j, f),
    decreases s.len() - i, 0int,
{
    if let Some((f, j)) = atom_at(s, i) {
        if s[i] == '(' {
            let end = lemma_sum_sound(s, i + 1, f, j - 1);
            assert(closes(s, end, j));
        } else if is_digit(s[i]) || s[i] == '.' {
            lemma_skip_number(s, i, i);
            assert(in_number(s, i, i));
        } else {
            lemma_skip_name(s, i);
        }
    }
}

/// A factor that is read is one of the grammar.
proof fn lemma_factor_sound(s: Seq<char>, i: int)
    requires
        0 <= i <= s.len(),
    ensures
        factor_at(s, i) matches Some((f, j)) ==> spells_factor(s, i, j, f),
    decreases s.len() - i, 1int,
{
    lemma_skip_spaces_gap(s, i);
    let k = skip_spaces(s, i);
    if let Some((f, j)) = factor_at(s, i) {
        if s[k] == '-' || s[k] == '+' {
            lemma_factor_sound(s, k + 1);
            let (g, e) = factor_at(s, k + 1)->0;
            lemma_factor_bounds(s, k + 1, e, g);
        } else {
            lemma_atom_sound(s, k);
        }
        assert(gap(s, i, k));
    }
}

proof fn lemma_factor_bounds(s: Seq<char>, i: int, j: int, f: Formula)
    requires
        spells_factor(s, i, j, f),
    ensures
        0 <= i < j <= s.len(),
{
}

proof fn lemma_term_bounds(s: Seq<char>, i: int, j: int, f: Formula)
    requires
        spells_term(s, i, j, f),
    ensures
        0 <= i < j <= s.len(),
{
    if spells_factor(s, i, j, f) {
        lemma_factor_bounds(s, i, j, f);
    }
}

/// A sum lies in its text.
pub proof fn lemma_sum_bounds(s: Seq<char>, i: int, j: int, f: Formula)
    requires
        spells_sum(s, i, j, f),
    ensures
        0 <= i < j <= s.len(),
{
    if spells_term(s, i, j, f) {
        lemma_term_bounds(s, i, j, f);
    }
}

/// Factors that continue a term make a term. Returns where it ends.
proof fn lemma_factors_sound(
    s: Seq<char>,
    start: int,
    left: Formula,
    i: int,
    f: Formula,
    j: int,
) -> (end: int)
    requires
        spells_term(s, start, i, left),
        factors_from(s, left, i) == Some((f, j)),
    ensures
        spells_term(s, start, end, f),
        gap(s, end, j),
        j <= s.len(),
    decreases s.len() - i, 2int,
{
    lemma_term_bounds(s, start, i, left);
    lemma_skip_spaces_gap(s, i);
    let k = skip_spaces(s, i);
    if i <= k < s.len() && (s[k] == '*' || s[k] == '/') {
        let op = if s[k] == '*' {
            Operator::Multiply
        } else {
            Operator::Divide
        };
        lemma_factor_sound(s, k + 1);
        let (g, e) = factor_at(s, k + 1)->0;
        lemma_factor_bounds(s, k + 1, e, g);
        let more = Formula::Binary(op, Box::new(left), Box::new(g));
        assert(gap(s, i, k));
        assert(spells_term(s, start, e, more));
        lemma_factors_sound(s, start, more, e, f, j)
    } else {
        i
    }
}

/// A term that is read is one of the grammar. Returns where it ends.
proof fn lemma_term_sound(s: Seq<char>, i: int, f: Formula, j: int) -> (end: int)
    requires
        0 <= i <= s.len(),
        term_at(s, i) == Some((f, j)),
    ensures
        spells_term(s, i, end, f),
        gap(s, end, j),
        j <= s.len(),
    decreases s.len() - i, 3int,
{
    lemma_factor_sound(s, i);
    let (g, e) = factor_at(s, i)->0;
    lemma_factor_bounds(s, i, e, g);
    lemma_factors_sound(s, i, g, e, f, j)
}

/// Terms that continue a sum make a sum. Returns where it ends.
proof fn lemma_terms_sound(
    s: Seq<char>,
    start: int,
    left: Formula,
    end: int,
    i: int,
    f: Formula,
    j: int,
) -> (r: int)
    requires
        spells_sum(s, start, end, left),
        gap(s, end, i),
        i <= s.len(),
        terms_from(s, left, i) == Some((f, j)),
    ensures
        spells_sum(s, start, r, f),
        gap(s, r, j),
        j <= s.len(),
    decreases s.len() - i, 4int,
{
    lemma_sum_bounds(s, start, end, left);
    lemma_skip_spaces_gap(s, i);
    let k = skip_spaces(s, i);
    lemma_gap_joins(s, end, i, k);
    if i <= k < s.len() && (s[k] == '+' || s[k] == '-') {
        let op = if s[k] == '+' {
            Operator::Add
        } else {
            Operator::Subtract
        };
        let (g, e) = term_at(s, k + 1)->0;
        let close = lemma_term_sound(s, k + 1, g, e);
        lemma_term_bounds(s, k + 1, close, g);
        let more = Formula::Binary(op, Box::new(left), Box::new(g));
        assert(gap(s, end, k));
        assert(spells_sum(s, start, close, more));
        lemma_terms_sound(s, start, more, close, e, f, j)
    } else {
        end
    }
}

/// A sum that is read is one of the grammar. Returns where it ends.
proof fn lemma_sum_sound(s: Seq<char>, i: int, f: Formula, j: int) -> (end: int)
    requires
        0 <= i <= s.len(),
        formula_at(s, i) == Some((f, j)),
    ensures
        spells_sum(s, i, end, f),
        i < end,
        gap(s, end, j),
        j <= s.len(),
    decreases s.len() - i, 5int,
{
    let (g, e) = term_at(s, i)->0;
    let close = lemma_term_sound(s, i, g, e);
    lemma_term_bounds(s, i, close, g);
    assert(spells_sum(s, i, close, g));
    let end = lemma_terms_sound(s, i, g, close, e, f, j);
    lemma_sum_bounds(s, i, end, f);
    end
}

/// What ends at `j` cannot go on there.
spec fn stops(s: Seq<char>, j: int) -> bool {
    j == s.len() || s[j] == ' ' || s[j] == '+' || s[j] == '-' || s[j] == '*' || s[j] == '/' || s[j]
        == ')'
}

/// Where spaces end.
proof fn lemma_gap_ends(s: Seq<char>, i: int, k: int)
    requires
        0 <= i,
        gap(s, i, k),
        k <= s.len(),
        k == s.len() || s[k] != ' ',
    ensures
        skip_spaces(s, i) == k,
    decreases k - i,
{
    if i < k {
        assert(s[i] == ' ');
        lemma_gap_ends(s, i + 1, k);
    }
}

proof fn lemma_skip_digits(t: Seq<char>, i: int)
    requires
        0 <= i <= t.len(),
    ensures
        i <= skip_digits(t, i) <= t.len(),
        forall|n: int| i <= n < skip_digits(t, i) ==> is_digit(#[trigger] t[n]),
    decreases t.len() - i,
{
    if i < t.len() && is_digit(t[i]) {
        lemma_skip_digits(t, i + 1);
    }
}

/// What a number without a sign looks like.
proof fn lemma_real_text(t: Seq<char>)
    requires
        is_unsigned_real(t),
    ensures
        t.len() > 0,
        is_digit(t[0]) || t[0] == '.',
        !is_exponent_mark(t[t.len() - 1]),
        forall|n: int| 0 <= n < t.len() ==> #[trigger] in_number(t, 0, n),
{
    let a = skip_digits(t, 0);
    lemma_skip_digits(t, 0);
    let pointed = 0 <= a < t.len() && t[a] == '.';
    let b = if pointed {
        skip_digits(t, a + 1)
    } else {
        a
    };
    if pointed {
        lemma_skip_digits(t, a + 1);
    }
    if 0 <= b < t.len() && is_exponent_mark(t[b]) {
        let d = if b + 1 < t.len() && (t[b + 1] == '+' || t[b + 1] == '-') {
            b + 2
        } else {
            b + 1
        };
        lemma_skip_digits(t, d);
        assert(skip_digits(t, d) == t.len());
        assert(is_digit(t[t.len() - 1]));
    }
    assert forall|n: int| 0 <= n < t.len() implies #[trigger] in_number(t, 0, n) by {
        if n < a {
            assert(is_digit(t[n]));
        } else if n < b {
            assert(n == a || is_digit(t[n]));
        } else if n > b + 1 {
            assert(is_digit(t[n]));
        }
    }
    assert(!is_exponent_mark(t[t.len() - 1])) by {
        let m = t.len() - 1;
        if b == t.len() {
            if m < a {
                assert(is_digit(t[m]));
            } else if pointed && m > a {
                assert(is_digit(t[m]));
            }
        }
    }
    assert(is_digit(t[0]) || t[0] == '.') by {
        if 0 < a {
            assert(is_digit(t[0]));
        }
    }
}

proof fn lemma_number_reaches(s: Seq<char>, start: int, i: int, j: int)
    requires
        0 <= start <= i <= j <= s.len(),
        forall|n: int| start <= n < j ==> #[trigger] in_number(s, start, n),
        j < s.len() ==> !in_number(s, start, j),
    ensures
        skip_number(s, start, i) == j,
    decreases j - i,
{
    if i < j {
        assert(in_number(s, start, i));
        lemma_number_reaches(s, start, i + 1, j);
    }
}

/// A name reaches as far as its characters do.
pub proof fn lemma_name_reaches(s: Seq<char>, i: int, j: int)
    requires
        0 <= i <= j <= s.len(),
        forall|n: int| i <= n < j ==> is_name_char(#[trigger] s[n]),
        j < s.len() ==> !is_name_char(s[j]),
    ensures
        skip_name(s, i) == j,
    decreases j - i,
{
    if i < j {
        assert(is_name_char(s[i]));
        lemma_name_reaches(s, i + 1, j);
    }
}

/// What the name of a variable looks like.
proof fn lemma_name_text(t: Seq<char>)
    requires
        variable_named(t) is Some,
    ensures
        t.len() > 0,
        is_letter(t[0]),
        forall|n: int| 0 <= n < t.len() ==> is_name_char(#[trigger] t[n]),
{
    reveal_strlit("box_x_position");
    reveal_strlit("box_y_position");
    reveal_strlit("box_width");
    reveal_strlit("box_height");
    reveal_strlit("box_color_r");
    reveal_strlit("box_color_g");
    reveal_strlit("box_color_b");
    reveal_strlit("box_pixel_count");
    reveal_strlit("box_id");
}

/// An atom of the grammar is read.
proof fn lemma_atom_complete(s: Seq<char>, i: int, j: int, f: Formula)
    requires
        s.len() <= usize::MAX,
        spells_atom(s, i, j, f),
        stops(s, j),
    ensures
        atom_at(s, i) == Some((f, j)),
        s[i] != ' ' && s[i] != '+' && s[i] != '-',
    decreases j - i, 0int,
{
    let t = s.subrange(i, j);
    if f == (Formula::Number { start: i as usize, end: j as usize }) && is_unsigned_real(t) {
        lemma_real_text(t);
        assert(t[0] == s[i]);
        assert(t[t.len() - 1] == s[j - 1]);
        assert forall|n: int| i <= n < j implies #[trigger] in_number(s, i, n) by {
            assert(in_number(t, 0, n - i));
            assert(t[n - i] == s[n]);
            if n > i {
                assert(t[n - i - 1] == s[n - 1]);
            }
        }
        lemma_number_reaches(s, i, i, j);
    } else if f is Variable && variable_named(t) == Some(f->Variable_0) {
        lemma_name_text(t);
        assert(t[0] == s[i]);
        assert forall|n: int| i <= n < j implies is_name_char(#[trigger] s[n]) by {
            assert(t[n - i] == s[n]);
        }
        lemma_name_reaches(s, i, j);
    } else {
        let k = choose|k: int|
            i + 1 < k < j && #[trigger] closes(s, k, j) && spells_sum(s, i + 1, k, f);
        lemma_gap_ends(s, k, j - 1);
        assert(stops(s, k)) by {
            if k < j - 1 {
                assert(s[k] == ' ');
            }
        }
        lemma_sum_complete(s, i + 1, k, f);
    }
}

/// A factor of the grammar is read.
proof fn lemma_factor_complete(s: Seq<char>, i: int, j: int, f: Formula)
    requires
        s.len() <= usize::MAX,
        spells_factor(s, i, j, f),
        stops(s, j),
    ensures
        factor_at(s, i) == Some((f, j)),
    decreases j - i, 1int,
{
    let k = choose|k: int|
        0 <= i <= k < j <= s.len() && #[trigger] gap(s, i, k) && {
            ||| spells_atom(s, k, j, f)
            ||| s[k] == '+' && spells_factor(s, k + 1, j, f)
            ||| s[k] == '-' && f is Negate && spells_factor(s, k + 1, j, *f->Negate_0)
        };
    if spells_atom(s, k, j, f) {
        lemma_atom_complete(s, k, j, f);
    } else if s[k] == '+' {
        lemma_factor_complete(s, k + 1, j, f);
    } else {
        lemma_factor_complete(s, k + 1, j, *f->Negate_0);
        assert(f == Formula::Negate(Box::new(*f->Negate_0)));
    }
    lemma_gap_ends(s, i, k);
}

/// Reading a term of the grammar from `i` on comes to `j` with the term read so
/// far. Returns the first factor and where it ends.
proof fn lemma_term_reaches(s: Seq<char>, i: int, j: int, f: Formula) -> (first: (Formula, int))
    requires
        s.len() <= usize::MAX,
        spells_term(s, i, j, f),
        stops(s, j),
    ensures
        factor_at(s, i) == Some(first),
        i < first.1 <= s.len(),
        factors_from(s, first.0, first.1) == factors_from(s, f, j),
    decreases j - i, 2int,
{
    if spells_factor(s, i, j, f) {
        lemma_factor_bounds(s, i, j, f);
        lemma_factor_complete(s, i, j, f);
        (f, j)
    } else {
        let op = f->Binary_0;
        let (a, b) = (*f->Binary_1, *f->Binary_2);
        let (k, l) = choose|k: int, l: int|
            0 <= i < k <= l < j <= s.len() && #[trigger] gap(s, k, l) && s[l] == sign_of(op)
                && spells_term(s, i, k, a) && spells_factor(s, l + 1, j, b);
        assert(stops(s, k)) by {
            if k < l {
                assert(s[k] == ' ');
            }
        }
        let first = lemma_term_reaches(s, i, k, a);
        lemma_gap_ends(s, k, l);
        lemma_factor_complete(s, l + 1, j, b);
        assert(f == Formula::Binary(op, Box::new(a), Box::new(b)));
        first
    }
}

/// No factor follows at `j`.
spec fn term_stops(s: Seq<char>, j: int) -> bool {
    let k = skip_spaces(s, j);
    k == s.len() || s[k] != '*' && s[k] != '/'
}

/// A term of the grammar is read.
proof fn lemma_term_complete(s: Seq<char>, i: int, j: int, f: Formula)
    requires
        s.len() <= usize::MAX,
        spells_term(s, i, j, f),
        stops(s, j),
        term_stops(s, j),
    ensures
        term_at(s, i) == Some((f, skip_spaces(s, j))),
    decreases j - i, 3int,
{
    lemma_term_bounds(s, i, j, f);
    lemma_skip_spaces_gap(s, j);
    let first = lemma_term_reaches(s, i, j, f);
}

proof fn lemma_skip_twice(s: Seq<char>, left: Formula, i: int)
    requires
        0 <= i <= s.len(),
    ensures
        terms_from(s, left, skip_spaces(s, i)) == terms_from(s, left, i),
{
    lemma_skip_spaces_gap(s, i);
    let k = skip_spaces(s, i);
    lemma_gap_ends(s, k, k);
}

/// Reading a sum of the grammar from `i` on comes to `j` with the sum read so
/// far. Returns the first term and what follows it.
proof fn lemma_sum_reaches(s: Seq<char>, i: int, j: int, f: Formula) -> (first: (Formula, int))
    requires
        s.len() <= usize::MAX,
        spells_sum(s, i, j, f),
        stops(s, j),
        term_stops(s, j),
    ensures
        term_at(s, i) == Some(first),
        i < first.1 <= s.len(),
        terms_from(s, first.0, first.1) == terms_from(s, f, j),
    decreases j - i, 4int,
{
    lemma_sum_bounds(s, i, j, f);
    lemma_skip_spaces_gap(s, j);
    lemma_skip_twice(s, f, j);
    if spells_term(s, i, j, f) {
        lemma_term_complete(s, i, j, f);
        (f, skip_spaces(s, j))
    } else {
        let op = f->Binary_0;
        let (a, b) = (*f->Binary_1, *f->Binary_2);
        let (k, l) = choose|k: int, l: int|
            0 <= i < k <= l < j <= s.len() && #[trigger] gap(s, k, l) && s[l] == sign_of(op)
                && spells_sum(s, i, k, a) && spells_term(s, l + 1, j, b);
        lemma_gap_ends(s, k, l);
        assert(stops(s, k)) by {
            if k < l {
                assert(s[k] == ' ');
            }
        }
        let first = lemma_sum_reaches(s, i, k, a);
        lemma_term_complete(s, l + 1, j, b);
        assert(f == Formula::Binary(op, Box::new(a), Box::new(b)));
        first
    }
}

/// A sum of the grammar is read, if no sign follows it.
proof fn lemma_sum_complete(s: Seq<char>, i: int, j: int, f: Formula)
    requires
        s.len() <= usize::MAX,
        spells_sum(s, i, j, f),
        stops(s, j),
        skip_spaces(s, j) == s.len() || s[skip_spaces(s, j)] == ')',
    ensures
        formula_at(s, i) == Some((f, skip_spaces(s, j))),
    decreases j - i, 5int,
{
    lemma_sum_bounds(s, i, j, f);
    lemma_skip_spaces_gap(s, j);
    let first = lemma_sum_reaches(s, i, j, f);
}

/// A text is read as a formula if and only if the grammar says that it spells
/// that formula. So no text spells two formulas.
pub proof fn law_reading_follows_the_grammar(s: Seq<char>, f: Formula)
    requires
        s.len() <= usize::MAX,
    ensures
        formula_of(s) == Some(f) <==> is_formula(s, f),
{
    let n = s.len() as int;
    if formula_of(s) == Some(f) {
        let end = lemma_sum_sound(s, 0, f, n);
        assert(spells_sum(s, 0, end, f) && gap(s, end, n));
    }
    if is_formula(s, f) {
        let j = choose|j: int| #[trigger] spells_sum(s, 0, j, f) && gap(s, j, n);
        lemma_sum_bounds(s, 0, j, f);
        lemma_gap_ends(s, j, n);
        assert(stops(s, j)) by {
            if j < n {
                assert(s[j] == ' ');
            }
        }
        lemma_sum_complete(s, 0, j, f);
    }
}

} // verus!
