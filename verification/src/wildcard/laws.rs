//! What formulas and names mean in a block.
use super::chars::starts_with;
use super::eval::{
    block_meaning, exact_binary, exact_int, exact_value, formula_meaning, percent_request,
    random_meaning, variable_value, BoxContext, Exact, Meaning,
};
use super::formula::{
    formula_of, is_unsigned_real, skip_digits, variable_named, Formula, Operator,
};
use super::grammar::{
    closes, gap, is_formula, law_reading_follows_the_grammar, sign_of, spells_atom, spells_factor,
    spells_sum, spells_term,
};
use super::numbers::{all_digits, digits_value, int_text, is_digit, lemma_nat_text};
use vstd::prelude::*;

verus! {

/// The formula whose numbers stand `d` characters further right.
spec fn moved(f: Formula, d: int) -> Formula
    decreases f,
{
    match f {
        Formula::Number { start, end } => Formula::Number {
            start: (start + d) as usize,
            end: (end + d) as usize,
        },
        Formula::Variable(v) => Formula::Variable(v),
        Formula::Negate(a) => Formula::Negate(Box::new(moved(*a, d))),
        Formula::Binary(op, a, b) => Formula::Binary(
            op,
            Box::new(moved(*a, d)),
            Box::new(moved(*b, d)),
        ),
    }
}

/// The text `t` stands in `s`, `d` characters from its start.
spec fn stands_in(t: Seq<char>, s: Seq<char>, d: int) -> bool {
    &&& 0 <= d
    &&& d + t.len() <= s.len() <= usize::MAX
    &&& forall|n: int| 0 <= n < t.len() ==> #[trigger] s[n + d] == t[n]
}

proof fn lemma_same_piece(t: Seq<char>, s: Seq<char>, d: int, i: int, j: int)
    requires
        stands_in(t, s, d),
        0 <= i <= j <= t.len(),
    ensures
        s.subrange(i + d, j + d) == t.subrange(i, j),
{
    assert forall|n: int| 0 <= n < j - i implies s.subrange(i + d, j + d)[n] == t.subrange(i, j)[n] by {
        assert(s[(i + n) + d] == t[i + n]);
    }
    assert(s.subrange(i + d, j + d) =~= t.subrange(i, j));
}

proof fn lemma_same_gap(t: Seq<char>, s: Seq<char>, d: int, i: int, k: int)
    requires
        stands_in(t, s, d),
        0 <= i <= k <= t.len(),
        gap(t, i, k),
    ensures
        gap(s, i + d, k + d),
{
    assert forall|n: int| i + d <= n < k + d implies #[trigger] s[n] == ' ' by {
        assert(t[n - d] == ' ');
        assert(s[(n - d) + d] == t[n - d]);
    }
}

/// An atom means the same wherever its text stands.
#[verifier::spinoff_prover]
#[verifier::rlimit(40)]
proof fn lemma_moved_atom(t: Seq<char>, s: Seq<char>, d: int, i: int, j: int, f: Formula, ctx: BoxContext)
    requires
        stands_in(t, s, d),
        spells_atom(t, i, j, f),
    ensures
        spells_atom(s, i + d, j + d, moved(f, d)),
        exact_value(moved(f, d), s, ctx) == exact_value(f, t, ctx),
    decreases j - i, 0int,
{
    lemma_same_piece(t, s, d, i, j);
    if f == (Formula::Number { start: i as usize, end: j as usize }) && is_unsigned_real(
        t.subrange(i, j),
    ) {
    } else if f is Variable && variable_named(t.subrange(i, j)) == Some(f->Variable_0) {
    } else {
        let k = choose|k: int|
            i + 1 < k < j && #[trigger] closes(t, k, j) && spells_sum(t, i + 1, k, f);
        lemma_moved_sum(t, s, d, i + 1, k, f, ctx);
        lemma_same_gap(t, s, d, k, j - 1);
        assert(s[(j - 1) + d] == t[j - 1]);
        assert(s[i + d] == t[i]);
        assert(closes(s, k + d, j + d));
        assert(spells_sum(s, (i + d) + 1, k + d, moved(f, d)));
    }
}

/// A factor means the same wherever its text stands.
#[verifier::spinoff_prover]
#[verifier::rlimit(40)]
proof fn lemma_moved_factor(t: Seq<char>, s: Seq<char>, d: int, i: int, j: int, f: Formula, ctx: BoxContext)
    requires
        stands_in(t, s, d),
        spells_factor(t, i, j, f),
    ensures
        spells_factor(s, i + d, j + d, moved(f, d)),
        exact_value(moved(f, d), s, ctx) == exact_value(f, t, ctx),
    decreases j - i, 1int,
{
    let k = choose|k: int|
        0 <= i <= k < j <= t.len() && #[trigger] gap(t, i, k) && {
            ||| spells_atom(t, k, j, f)
            ||| t[k] == '+' && spells_factor(t, k + 1, j, f)
            ||| t[k] == '-' && f is Negate && spells_factor(t, k + 1, j, *f->Negate_0)
        };
    lemma_same_gap(t, s, d, i, k);
    assert(s[k + d] == t[k]);
    if spells_atom(t, k, j, f) {
        lemma_moved_atom(t, s, d, k, j, f, ctx);
    } else if t[k] == '+' {
        lemma_moved_factor(t, s, d, k + 1, j, f, ctx);
        assert(spells_factor(s, (k + d) + 1, j + d, moved(f, d)));
    } else {
        lemma_moved_factor(t, s, d, k + 1, j, *f->Negate_0, ctx);
        assert(spells_factor(s, (k + d) + 1, j + d, moved(*f->Negate_0, d)));
    }
    assert(gap(s, i + d, k + d));
}

/// A term means the same wherever its text stands.
#[verifier::spinoff_prover]
#[verifier::rlimit(40)]
proof fn lemma_moved_term(t: Seq<char>, s: Seq<char>, d: int, i: int, j: int, f: Formula, ctx: BoxContext)
    requires
        stands_in(t, s, d),
        spells_term(t, i, j, f),
    ensures
        spells_term(s, i + d, j + d, moved(f, d)),
        exact_value(moved(f, d), s, ctx) == exact_value(f, t, ctx),
    decreases j - i, 2int,
{
    if spells_factor(t, i, j, f) {
        lemma_moved_factor(t, s, d, i, j, f, ctx);
    } else {
        let (a, b) = (*f->Binary_1, *f->Binary_2);
        let (k, l) = choose|k: int, l: int|
            0 <= i < k <= l < j <= t.len() && #[trigger] gap(t, k, l) && t[l] == sign_of(
                f->Binary_0,
            ) && spells_term(t, i, k, a) && spells_factor(t, l + 1, j, b);
        lemma_moved_term(t, s, d, i, k, a, ctx);
        lemma_moved_factor(t, s, d, l + 1, j, b, ctx);
        lemma_same_gap(t, s, d, k, l);
        assert(s[l + d] == t[l]);
        assert(gap(s, k + d, l + d));
        assert(spells_factor(s, (l + d) + 1, j + d, moved(b, d)));
    }
}

/// A sum means the same wherever its text stands.
#[verifier::spinoff_prover]
#[verifier::rlimit(40)]
proof fn lemma_moved_sum(t: Seq<char>, s: Seq<char>, d: int, i: int, j: int, f: Formula, ctx: BoxContext)
    requires
        stands_in(t, s, d),
        spells_sum(t, i, j, f),
    ensures
        spells_sum(s, i + d, j + d, moved(f, d)),
        exact_value(moved(f, d), s, ctx) == exact_value(f, t, ctx),
    decreases j - i, 3int,
{
    if spells_term(t, i, j, f) {
        lemma_moved_term(t, s, d, i, j, f, ctx);
    } else {
        let (a, b) = (*f->Binary_1, *f->Binary_2);
        let (k, l) = choose|k: int, l: int|
            0 <= i < k <= l < j <= t.len() && #[trigger] gap(t, k, l) && t[l] == sign_of(
                f->Binary_0,
            ) && spells_sum(t, i, k, a) && spells_term(t, l + 1, j, b);
        lemma_moved_sum(t, s, d, i, k, a, ctx);
        lemma_moved_term(t, s, d, l + 1, j, b, ctx);
        lemma_same_gap(t, s, d, k, l);
        assert(s[l + d] == t[l]);
        assert(gap(s, k + d, l + d));
        assert(spells_term(s, (l + d) + 1, j + d, moved(b, d)));
    }
}

/// The text is a formula whose value is the whole number `x`.
pub open spec fn has_value(text: Seq<char>, ctx: BoxContext, x: int) -> bool {
    &&& formula_of(text) is Some
    &&& exact_value(formula_of(text)->0, text, ctx) == Exact::Value(x as i64)
    &&& -0x20_0000_0000_0000 <= x <= 0x20_0000_0000_0000
}

/// The block with an inside shows the whole number `x`, and draws nothing from
/// the random generator.
pub open spec fn shows_number(inner: Seq<char>, ctx: BoxContext, s: u64, x: int) -> bool {
    block_meaning(inner, ctx, s) == (Meaning::Text(int_text(x)), s)
}

/// The text in brackets.
pub open spec fn bracketed(text: Seq<char>) -> Seq<char> {
    seq!['('] + text + seq![')']
}

/// The number is one of those that double precision holds exactly.
pub open spec fn is_small(x: int) -> bool {
    -0x20_0000_0000_0000 <= x <= 0x20_0000_0000_0000
}

/// A block that begins neither like a random value nor like the name of a
/// property is a formula.
pub proof fn lemma_formula_block(inner: Seq<char>, ctx: BoxContext, s: u64)
    requires
        inner.len() > 0,
        inner[0] != 'r' && inner[0] != 'b',
    ensures
        block_meaning(inner, ctx, s) == (formula_meaning(inner, ctx), s),
{
    lemma_not_random(inner, s);
    reveal_strlit("box_pixel_percent_");
    lemma_not_percent(inner, 0);
    reveal_strlit("box_color_rgb_hex_upper");
    reveal_strlit("box_color_rgb_hex_lower");
    reveal_strlit("box_color_rgb");
    reveal_strlit("box_color_r_hex_upper");
    reveal_strlit("box_color_g_hex_upper");
    reveal_strlit("box_color_b_hex_upper");
    reveal_strlit("box_color_r_hex_lower");
    reveal_strlit("box_color_g_hex_lower");
    reveal_strlit("box_color_b_hex_lower");
    reveal_strlit("box_color_r");
    reveal_strlit("box_color_g");
    reveal_strlit("box_color_b");
    reveal_strlit("box_pixel_count");
    reveal_strlit("box_id");
    reveal(block_meaning);
}

/// A text that differs from a prefix somewhere does not begin with it.
pub proof fn lemma_differs(inner: Seq<char>, prefix: Seq<char>, k: int)
    requires
        0 <= k < prefix.len(),
        k < inner.len() ==> inner[k] != prefix[k],
    ensures
        !starts_with(inner, prefix),
{
    if starts_with(inner, prefix) {
        assert(inner.subrange(0, prefix.len() as int)[k] == prefix[k]);
    }
}

/// A block that does not begin like a random value is none.
pub proof fn lemma_not_random(inner: Seq<char>, s: u64)
    requires
        inner.len() > 0,
        inner[0] != 'r',
    ensures
        random_meaning(inner, s) is None,
{
    reveal_strlit("random_alphanumeric_upper_");
    reveal_strlit("random_alphanumeric_lower_");
    reveal_strlit("random_alphanumeric_");
    reveal_strlit("random_alphabet_upper_");
    reveal_strlit("random_alphabet_lower_");
    reveal_strlit("random_alphabet_");
    reveal_strlit("random_special_");
    reveal_strlit("random_hex_");
    reveal_strlit("random_string_");
    reveal_strlit("random_choice_");
    reveal_strlit("random_float_");
    reveal_strlit("random_int_");
    reveal_strlit("random_bool");
    lemma_differs(inner, "random_alphanumeric_upper_"@, 0);
    lemma_differs(inner, "random_alphanumeric_lower_"@, 0);
    lemma_differs(inner, "random_alphanumeric_"@, 0);
    lemma_differs(inner, "random_alphabet_upper_"@, 0);
    lemma_differs(inner, "random_alphabet_lower_"@, 0);
    lemma_differs(inner, "random_alphabet_"@, 0);
    lemma_differs(inner, "random_special_"@, 0);
    lemma_differs(inner, "random_hex_"@, 0);
    lemma_differs(inner, "random_string_"@, 0);
    lemma_differs(inner, "random_choice_"@, 0);
    lemma_differs(inner, "random_float_"@, 0);
    lemma_differs(inner, "random_int_"@, 0);
}

/// A block that differs from the name of the share of the frame is none.
pub proof fn lemma_not_percent(inner: Seq<char>, k: int)
    requires
        0 <= k < 18,
        k < inner.len() ==> inner[k] != "box_pixel_percent_"@[k],
    ensures
        percent_request(inner) is None,
{
    reveal_strlit("box_pixel_percent_");
    lemma_differs(inner, "box_pixel_percent_"@, k);
}

/// A factor is a term and a sum.
proof fn lemma_factor_counts(s: Seq<char>, i: int, j: int, f: Formula)
    requires
        spells_factor(s, i, j, f),
    ensures
        spells_term(s, i, j, f),
        spells_sum(s, i, j, f),
{
    assert(spells_term(s, i, j, f));
}

/// An atom is a factor, a term and a sum.
proof fn lemma_atom_counts(s: Seq<char>, i: int, j: int, f: Formula)
    requires
        spells_atom(s, i, j, f),
    ensures
        spells_factor(s, i, j, f),
        spells_term(s, i, j, f),
        spells_sum(s, i, j, f),
{
    assert(0 <= i < j <= s.len());
    assert(gap(s, i, i));
    assert(spells_factor(s, i, j, f));
    lemma_factor_counts(s, i, j, f);
}

/// A term, a sign and a factor are a term, and with it a sum.
proof fn lemma_product(
    s: Seq<char>,
    i: int,
    k: int,
    j: int,
    op: Operator,
    a: Formula,
    b: Formula,
) -> (f: Formula)
    requires
        op == Operator::Multiply || op == Operator::Divide,
        0 <= i < k < j <= s.len(),
        spells_term(s, i, k, a),
        s[k] == sign_of(op),
        spells_factor(s, k + 1, j, b),
    ensures
        f == Formula::Binary(op, Box::new(a), Box::new(b)),
        spells_term(s, i, j, f),
        spells_sum(s, i, j, f),
{
    let f = Formula::Binary(op, Box::new(a), Box::new(b));
    assert(gap(s, k, k));
    assert(spells_term(s, i, j, f));
    f
}

/// A sum, a sign behind spaces and a term are a sum.
proof fn lemma_addition(
    s: Seq<char>,
    i: int,
    k: int,
    l: int,
    j: int,
    op: Operator,
    a: Formula,
    b: Formula,
) -> (f: Formula)
    requires
        op == Operator::Add || op == Operator::Subtract,
        0 <= i < k <= l < j <= s.len(),
        spells_sum(s, i, k, a),
        gap(s, k, l),
        s[l] == sign_of(op),
        spells_term(s, l + 1, j, b),
    ensures
        f == Formula::Binary(op, Box::new(a), Box::new(b)),
        spells_sum(s, i, j, f),
{
    let f = Formula::Binary(op, Box::new(a), Box::new(b));
    assert(spells_sum(s, i, j, f));
    f
}

/// Spaces and then a factor are a factor.
proof fn lemma_spaced(s: Seq<char>, i: int, k: int, j: int, f: Formula)
    requires
        0 <= i <= k < j <= s.len(),
        gap(s, i, k),
        spells_atom(s, k, j, f),
    ensures
        spells_factor(s, i, j, f),
        spells_term(s, i, j, f),
        spells_sum(s, i, j, f),
{
    assert(spells_factor(s, i, j, f));
    lemma_factor_counts(s, i, j, f);
}

/// A minus sign and then a factor are a factor.
proof fn lemma_negated(s: Seq<char>, i: int, j: int, g: Formula) -> (f: Formula)
    requires
        0 <= i < j <= s.len(),
        s[i] == '-',
        spells_factor(s, i + 1, j, g),
    ensures
        f == Formula::Negate(Box::new(g)),
        spells_sum(s, i, j, f),
{
    let f = Formula::Negate(Box::new(g));
    assert(gap(s, i, i));
    assert(spells_factor(s, i, j, f));
    lemma_factor_counts(s, i, j, f);
    f
}

/// A plus sign and then a factor are that factor.
proof fn lemma_plus_sign(s: Seq<char>, i: int, j: int, g: Formula)
    requires
        0 <= i < j <= s.len(),
        s[i] == '+',
        spells_factor(s, i + 1, j, g),
    ensures
        spells_sum(s, i, j, g),
{
    assert(gap(s, i, i));
    assert(spells_factor(s, i, j, g));
    lemma_factor_counts(s, i, j, g);
}

/// The text of a formula, in brackets somewhere in `s`, spells an atom there
/// with the same value.
#[verifier::spinoff_prover]
#[verifier::rlimit(40)]
proof fn lemma_bracketed(s: Seq<char>, i: int, a: Seq<char>, ctx: BoxContext) -> (f: Formula)
    requires
        0 <= i,
        i + a.len() + 2 <= s.len() <= usize::MAX,
        s.subrange(i, i + a.len() + 2) == bracketed(a),
        formula_of(a) is Some,
    ensures
        spells_atom(s, i, i + a.len() + 2, f),
        spells_factor(s, i, i + a.len() + 2, f),
        spells_term(s, i, i + a.len() + 2, f),
        spells_sum(s, i, i + a.len() + 2, f),
        exact_value(f, s, ctx) == exact_value(formula_of(a)->0, a, ctx),
{
    let g = formula_of(a)->0;
    let n = a.len() as int;
    let piece = s.subrange(i, i + n + 2);
    law_reading_follows_the_grammar(a, g);
    let j = choose|j: int| #[trigger] spells_sum(a, 0, j, g) && gap(a, j, n);
    assert(stands_in(a, s, i + 1)) by {
        assert forall|k: int| 0 <= k < n implies #[trigger] s[k + (i + 1)] == a[k] by {
            assert(piece[k + 1] == bracketed(a)[k + 1]);
        }
    }
    lemma_moved_sum(a, s, i + 1, 0, j, g, ctx);
    super::grammar::lemma_sum_bounds(a, 0, j, g);
    lemma_same_gap(a, s, i + 1, j, n);
    assert(piece[0] == '(' && piece[n + 1] == ')');
    assert(s[i] == '(' && s[i + n + 1] == ')');
    let f = moved(g, i + 1);
    assert(closes(s, j + (i + 1), i + n + 2));
    assert(spells_sum(s, i + 1, j + (i + 1), f));
    assert(spells_atom(s, i, i + n + 2, f));
    lemma_atom_counts(s, i, i + n + 2, f);
    f
}

/// A text that spells a sum from end to end is a formula with its value.
proof fn lemma_whole(s: Seq<char>, f: Formula, ctx: BoxContext)
    requires
        s.len() <= usize::MAX,
        spells_sum(s, 0, s.len() as int, f),
    ensures
        formula_of(s) == Some(f),
{
    let n = s.len() as int;
    assert(gap(s, n, n));
    assert(is_formula(s, f));
    law_reading_follows_the_grammar(s, f);
}

/// Putting a formula in brackets changes nothing, and a block with it shows its
/// value.
#[verifier::spinoff_prover]
#[verifier::rlimit(40)]
pub proof fn law_brackets_change_nothing(a: Seq<char>, ctx: BoxContext, s: u64, x: int)
    requires
        a.len() + 2 <= usize::MAX,
        has_value(a, ctx, x),
    ensures
        has_value(bracketed(a), ctx, x),
        shows_number(bracketed(a), ctx, s, x),
{
    let t = bracketed(a);
    assert(t.subrange(0, a.len() as int + 2) =~= t);
    let f = lemma_bracketed(t, 0, a, ctx);
    lemma_whole(t, f, ctx);
    lemma_formula_block(t, ctx, s);
}

/// Two formulas with an operator between them.
pub open spec fn joined_by(a: Seq<char>, op: char, b: Seq<char>) -> Seq<char> {
    bracketed(a) + seq![op] + bracketed(b)
}

/// What two formulas with an operator between them come to: the sum, the
/// difference, the product or the quotient of their values. A quotient that is
/// not whole is left to the caller, and there is none by zero.
#[verifier::spinoff_prover]
#[verifier::rlimit(40)]
pub proof fn law_operators_do_arithmetic(
    a: Seq<char>,
    b: Seq<char>,
    ctx: BoxContext,
    s: u64,
    x: int,
    y: int,
)
    requires
        a.len() + b.len() + 5 <= usize::MAX,
        has_value(a, ctx, x),
        has_value(b, ctx, y),
    ensures
        is_small(x + y) ==> has_value(joined_by(a, '+', b), ctx, x + y) && shows_number(
            joined_by(a, '+', b),
            ctx,
            s,
            x + y,
        ),
        is_small(x - y) ==> has_value(joined_by(a, '-', b), ctx, x - y) && shows_number(
            joined_by(a, '-', b),
            ctx,
            s,
            x - y,
        ),
        is_small(x * y) ==> has_value(joined_by(a, '*', b), ctx, x * y) && shows_number(
            joined_by(a, '*', b),
            ctx,
            s,
            x * y,
        ),
        forall|q: int|
            y != 0 && x == #[trigger] (q * y) ==> has_value(joined_by(a, '/', b), ctx, q)
                && shows_number(joined_by(a, '/', b), ctx, s, q),
        y != 0 && (forall|q: int| x != #[trigger] (q * y)) ==> block_meaning(
            joined_by(a, '/', b),
            ctx,
            s,
        ).0 is Real,
        y == 0 ==> block_meaning(joined_by(a, '/', b), ctx, s) == (Meaning::Nothing, s),
{
    lemma_joined(a, Operator::Add, b, ctx);
    lemma_joined(a, Operator::Subtract, b, ctx);
    lemma_joined(a, Operator::Multiply, b, ctx);
    lemma_joined(a, Operator::Divide, b, ctx);
    lemma_formula_block(joined_by(a, '+', b), ctx, s);
    lemma_formula_block(joined_by(a, '-', b), ctx, s);
    lemma_formula_block(joined_by(a, '*', b), ctx, s);
    lemma_formula_block(joined_by(a, '/', b), ctx, s);
    if y != 0 {
        assert(x == y * (x / y) + x % y) by (nonlinear_arith)
            requires
                y != 0,
        ;
        assert(y * (x / y) == (x / y) * y) by (nonlinear_arith);
        if x % y == 0 {
            assert(x == (x / y) * y);
        }
        assert forall|q: int| x == #[trigger] (q * y) implies x % y == 0 && x / y == q && is_small(
            q,
        ) by {
            lemma_quotient(x, y, q);
        }
    }
}

proof fn lemma_quotient(x: int, y: int, q: int)
    requires
        y != 0,
        x == q * y,
        is_small(x),
    ensures
        x % y == 0,
        x / y == q,
        is_small(q),
{
    let r = x % y;
    let p = x / y;
    assert(x == y * p + r && 0 <= r && (r < y || r < -y)) by (nonlinear_arith)
        requires
            y != 0,
            p == x / y,
            r == x % y,
    ;
    assert(p == q && r == 0) by (nonlinear_arith)
        requires
            y != 0,
            x == q * y,
            x == y * p + r,
            0 <= r && (r < y || r < -y),
    ;
    assert(-0x20_0000_0000_0000 <= q <= 0x20_0000_0000_0000) by (nonlinear_arith)
        requires
            y != 0,
            x == q * y,
            -0x20_0000_0000_0000 <= x <= 0x20_0000_0000_0000,
    ;
}

/// What two formulas with an operator between them come to.
#[verifier::spinoff_prover]
#[verifier::rlimit(40)]
proof fn lemma_joined(a: Seq<char>, op: Operator, b: Seq<char>, ctx: BoxContext)
    requires
        a.len() + b.len() + 5 <= usize::MAX,
        formula_of(a) is Some,
        formula_of(b) is Some,
    ensures
        comes_to(
            joined_by(a, sign_of(op), b),
            ctx,
            exact_binary(
                op,
                exact_value(formula_of(a)->0, a, ctx),
                exact_value(formula_of(b)->0, b, ctx),
            ),
        ),
{
    let t = joined_by(a, sign_of(op), b);
    let m = a.len() as int + 2;
    assert(t.subrange(0, m) =~= bracketed(a));
    assert(t.subrange(m + 1, m + 1 + b.len() + 2) =~= bracketed(b));
    assert(t[m] == sign_of(op));
    let left = lemma_bracketed(t, 0, a, ctx);
    let right = lemma_bracketed(t, m + 1, b, ctx);
    let f = lemma_two(t, m, op, left, right, ctx);
}

/// Two operands with an operator between them.
#[verifier::spinoff_prover]
#[verifier::rlimit(40)]
proof fn lemma_two(t: Seq<char>, i: int, op: Operator, u: Formula, v: Formula, ctx: BoxContext) -> (f:
    Formula)
    requires
        0 < i,
        i + 1 < t.len() <= usize::MAX,
        t[i] == sign_of(op),
        spells_term(t, 0, i, u),
        spells_sum(t, 0, i, u),
        spells_factor(t, i + 1, t.len() as int, v),
        spells_term(t, i + 1, t.len() as int, v),
    ensures
        formula_of(t) == Some(f),
        exact_value(f, t, ctx) == exact_binary(
            op,
            exact_value(u, t, ctx),
            exact_value(v, t, ctx),
        ),
{
    let n = t.len() as int;
    assert(gap(t, i, i));
    let f = if op == Operator::Multiply || op == Operator::Divide {
        lemma_product(t, 0, i, n, op, u, v)
    } else {
        lemma_addition(t, 0, i, i, n, op, u, v)
    };
    lemma_whole(t, f, ctx);
    lemma_binary_value(f, t, ctx);
    f
}

/// Three formulas with operators between them.
pub open spec fn three_joined(
    a: Seq<char>,
    first: char,
    b: Seq<char>,
    second: char,
    c: Seq<char>,
) -> Seq<char> {
    bracketed(a) + seq![first] + bracketed(b) + seq![second] + bracketed(c)
}

/// Products come before sums, and operators of one rank go from left to right.
#[verifier::spinoff_prover]
#[verifier::rlimit(40)]
pub proof fn law_operators_have_ranks(
    a: Seq<char>,
    b: Seq<char>,
    c: Seq<char>,
    ctx: BoxContext,
    x: int,
    y: int,
    z: int,
)
    requires
        a.len() + b.len() + c.len() + 8 <= usize::MAX,
        has_value(a, ctx, x),
        has_value(b, ctx, y),
        has_value(c, ctx, z),
    ensures
        is_small(y * z) && is_small(x + y * z) ==> has_value(
            three_joined(a, '+', b, '*', c),
            ctx,
            x + y * z,
        ),
        is_small(y * z) && is_small(x - y * z) ==> has_value(
            three_joined(a, '-', b, '*', c),
            ctx,
            x - y * z,
        ),
        is_small(x * y) && is_small(x * y - z) ==> has_value(
            three_joined(a, '*', b, '-', c),
            ctx,
            x * y - z,
        ),
        is_small(x - y) && is_small(x - y - z) ==> has_value(
            three_joined(a, '-', b, '-', c),
            ctx,
            x - y - z,
        ),
        is_small(x - y) && is_small(x - y + z) ==> has_value(
            three_joined(a, '-', b, '+', c),
            ctx,
            x - y + z,
        ),
        forall|k: int|
            y != 0 && x == #[trigger] (k * y) && is_small(k * z) ==> has_value(
                three_joined(a, '/', b, '*', c),
                ctx,
                k * z,
            ),
{
    lemma_three(a, Operator::Add, b, Operator::Multiply, c, ctx, x, y, z);
    lemma_three(a, Operator::Subtract, b, Operator::Multiply, c, ctx, x, y, z);
    lemma_three(a, Operator::Multiply, b, Operator::Subtract, c, ctx, x, y, z);
    lemma_three(a, Operator::Subtract, b, Operator::Subtract, c, ctx, x, y, z);
    lemma_three(a, Operator::Subtract, b, Operator::Add, c, ctx, x, y, z);
    lemma_three(a, Operator::Divide, b, Operator::Multiply, c, ctx, x, y, z);
    assert forall|k: int|
        y != 0 && x == #[trigger] (k * y) && is_small(k * z) implies has_value(
        three_joined(a, '/', b, '*', c),
        ctx,
        k * z,
    ) by {
        lemma_quotient(x, y, k);
    }
}

/// The operator is a product or a quotient.
spec fn binds_tighter(op: Operator) -> bool {
    op == Operator::Multiply || op == Operator::Divide
}

/// What three values with operators between them come to.
spec fn three_values(first: Operator, second: Operator, x: Exact, y: Exact, z: Exact) -> Exact {
    if !binds_tighter(first) && binds_tighter(second) {
        exact_binary(first, x, exact_binary(second, y, z))
    } else {
        exact_binary(second, exact_binary(first, x, y), z)
    }
}

/// The text is a formula with this outcome.
spec fn comes_to(text: Seq<char>, ctx: BoxContext, v: Exact) -> bool {
    formula_of(text) is Some && exact_value(formula_of(text)->0, text, ctx) == v
}

/// The value of three formulas with operators between them.
#[verifier::spinoff_prover]
#[verifier::rlimit(40)]
proof fn lemma_three(
    a: Seq<char>,
    first: Operator,
    b: Seq<char>,
    second: Operator,
    c: Seq<char>,
    ctx: BoxContext,
    x: int,
    y: int,
    z: int,
)
    requires
        a.len() + b.len() + c.len() + 8 <= usize::MAX,
        has_value(a, ctx, x),
        has_value(b, ctx, y),
        has_value(c, ctx, z),
    ensures
        comes_to(
            three_joined(a, sign_of(first), b, sign_of(second), c),
            ctx,
            three_values(
                first,
                second,
                Exact::Value(x as i64),
                Exact::Value(y as i64),
                Exact::Value(z as i64),
            ),
        ),
{
    let t = three_joined(a, sign_of(first), b, sign_of(second), c);
    let i = a.len() as int + 2;
    let j = i + 1 + b.len() + 2;
    assert(t.subrange(0, i) =~= bracketed(a));
    assert(t.subrange(i + 1, i + 1 + b.len() + 2) =~= bracketed(b));
    assert(t.subrange(j + 1, j + 1 + c.len() + 2) =~= bracketed(c));
    assert(t[i] == sign_of(first) && t[j] == sign_of(second));
    let u = lemma_bracketed(t, 0, a, ctx);
    let v = lemma_bracketed(t, i + 1, b, ctx);
    let w = lemma_bracketed(t, j + 1, c, ctx);
    if !binds_tighter(first) && binds_tighter(second) {
        lemma_right_first(t, i, j, first, second, u, v, w, ctx);
    } else {
        lemma_left_first(t, i, j, first, second, u, v, w, ctx);
    }
}

/// A sum of an operand and a product.
#[verifier::spinoff_prover]
#[verifier::rlimit(40)]
proof fn lemma_right_first(
    t: Seq<char>,
    i: int,
    j: int,
    first: Operator,
    second: Operator,
    u: Formula,
    v: Formula,
    w: Formula,
    ctx: BoxContext,
)
    requires
        0 < i,
        i + 1 < j < t.len() <= usize::MAX,
        !binds_tighter(first) && binds_tighter(second),
        t[i] == sign_of(first) && t[j] == sign_of(second),
        spells_sum(t, 0, i, u),
        spells_term(t, i + 1, j, v),
        spells_factor(t, j + 1, t.len() as int, w),
    ensures
        comes_to(
            t,
            ctx,
            exact_binary(
                first,
                exact_value(u, t, ctx),
                exact_binary(second, exact_value(v, t, ctx), exact_value(w, t, ctx)),
            ),
        ),
{
    let n = t.len() as int;
    assert(gap(t, i, i));
    let inner = lemma_product(t, i + 1, j, n, second, v, w);
    let f = lemma_addition(t, 0, i, i, n, first, u, inner);
    lemma_whole(t, f, ctx);
    lemma_binary_value(f, t, ctx);
    lemma_binary_value(inner, t, ctx);
}

/// An operand joined to what the two before it come to.
#[verifier::spinoff_prover]
#[verifier::rlimit(40)]
proof fn lemma_left_first(
    t: Seq<char>,
    i: int,
    j: int,
    first: Operator,
    second: Operator,
    u: Formula,
    v: Formula,
    w: Formula,
    ctx: BoxContext,
)
    requires
        0 < i,
        i + 1 < j < t.len() <= usize::MAX,
        binds_tighter(first) || !binds_tighter(second),
        t[i] == sign_of(first) && t[j] == sign_of(second),
        spells_term(t, 0, i, u),
        spells_sum(t, 0, i, u),
        spells_factor(t, i + 1, j, v),
        spells_term(t, i + 1, j, v),
        spells_factor(t, j + 1, t.len() as int, w),
        spells_term(t, j + 1, t.len() as int, w),
    ensures
        comes_to(
            t,
            ctx,
            exact_binary(
                second,
                exact_binary(first, exact_value(u, t, ctx), exact_value(v, t, ctx)),
                exact_value(w, t, ctx),
            ),
        ),
{
    let n = t.len() as int;
    assert(gap(t, i, i));
    assert(gap(t, j, j));
    let inner = if binds_tighter(first) {
        lemma_product(t, 0, i, j, first, u, v)
    } else {
        lemma_addition(t, 0, i, i, j, first, u, v)
    };
    let f = if binds_tighter(second) {
        lemma_product(t, 0, j, n, second, inner, w)
    } else {
        lemma_addition(t, 0, j, j, n, second, inner, w)
    };
    lemma_whole(t, f, ctx);
    lemma_binary_value(f, t, ctx);
    lemma_binary_value(inner, t, ctx);
}

proof fn lemma_binary_value(f: Formula, t: Seq<char>, ctx: BoxContext)
    requires
        f is Binary,
    ensures
        exact_value(f, t, ctx) == exact_binary(
            f->Binary_0,
            exact_value(*f->Binary_1, t, ctx),
            exact_value(*f->Binary_2, t, ctx),
        ),
{
}

/// A minus sign before a formula makes its value the opposite, a plus sign
/// changes nothing, and neither do spaces around it.
#[verifier::spinoff_prover]
#[verifier::rlimit(40)]
pub proof fn law_signs_and_spaces(a: Seq<char>, ctx: BoxContext, x: int)
    requires
        a.len() + 4 <= usize::MAX,
        has_value(a, ctx, x),
    ensures
        has_value(seq!['-'] + bracketed(a), ctx, -x),
        has_value(seq!['+'] + bracketed(a), ctx, x),
        has_value(seq![' '] + bracketed(a), ctx, x),
        has_value(bracketed(a) + seq![' '], ctx, x),
        has_value(seq!['-', ' '] + bracketed(a), ctx, -x),
{
    lemma_minus_before(a, ctx);
    lemma_minus_and_space_before(a, ctx);
    lemma_plus_before(a, ctx);
    lemma_space_before(a, ctx);
    lemma_space_behind(a, ctx);
}

/// The opposite of an outcome.
spec fn opposite(v: Exact) -> Exact {
    match v {
        Exact::Value(x) => exact_int(-x),
        other => other,
    }
}

#[verifier::spinoff_prover]
#[verifier::rlimit(40)]
proof fn lemma_plus_before(a: Seq<char>, ctx: BoxContext)
    requires
        a.len() + 4 <= usize::MAX,
        formula_of(a) is Some,
    ensures
        comes_to(seq!['+'] + bracketed(a), ctx, exact_value(formula_of(a)->0, a, ctx)),
{
    let n = a.len() as int;
    let t = seq!['+'] + bracketed(a);
    assert(t.subrange(1, 1 + n + 2) =~= bracketed(a));
    let g = lemma_bracketed(t, 1, a, ctx);
    lemma_plus_sign(t, 0, t.len() as int, g);
    lemma_whole(t, g, ctx);
}

#[verifier::spinoff_prover]
#[verifier::rlimit(40)]
proof fn lemma_minus_before(a: Seq<char>, ctx: BoxContext)
    requires
        a.len() + 4 <= usize::MAX,
        formula_of(a) is Some,
    ensures
        comes_to(seq!['-'] + bracketed(a), ctx, opposite(exact_value(formula_of(a)->0, a, ctx))),
{
    let n = a.len() as int;
    let t = seq!['-'] + bracketed(a);
    assert(t.subrange(1, 1 + n + 2) =~= bracketed(a));
    let g = lemma_bracketed(t, 1, a, ctx);
    let f = lemma_negated(t, 0, t.len() as int, g);
    lemma_whole(t, f, ctx);
}

#[verifier::spinoff_prover]
#[verifier::rlimit(40)]
proof fn lemma_minus_and_space_before(a: Seq<char>, ctx: BoxContext)
    requires
        a.len() + 4 <= usize::MAX,
        formula_of(a) is Some,
    ensures
        comes_to(seq!['-', ' '] + bracketed(a), ctx, opposite(exact_value(formula_of(a)->0, a, ctx))),
{
    let n = a.len() as int;
    let t = seq!['-', ' '] + bracketed(a);
    assert(t.subrange(2, 2 + n + 2) =~= bracketed(a));
    let g = lemma_bracketed(t, 2, a, ctx);
    assert(gap(t, 1, 2));
    lemma_spaced(t, 1, 2, t.len() as int, g);
    let f = lemma_negated(t, 0, t.len() as int, g);
    lemma_whole(t, f, ctx);
}

#[verifier::spinoff_prover]
#[verifier::rlimit(40)]
proof fn lemma_space_before(a: Seq<char>, ctx: BoxContext)
    requires
        a.len() + 4 <= usize::MAX,
        formula_of(a) is Some,
    ensures
        comes_to(seq![' '] + bracketed(a), ctx, exact_value(formula_of(a)->0, a, ctx)),
{
    let n = a.len() as int;
    let t = seq![' '] + bracketed(a);
    assert(t.subrange(1, 1 + n + 2) =~= bracketed(a));
    let g = lemma_bracketed(t, 1, a, ctx);
    assert(gap(t, 0, 1));
    lemma_spaced(t, 0, 1, t.len() as int, g);
    lemma_whole(t, g, ctx);
}

#[verifier::spinoff_prover]
#[verifier::rlimit(40)]
proof fn lemma_space_behind(a: Seq<char>, ctx: BoxContext)
    requires
        a.len() + 4 <= usize::MAX,
        formula_of(a) is Some,
    ensures
        comes_to(bracketed(a) + seq![' '], ctx, exact_value(formula_of(a)->0, a, ctx)),
{
    let n = a.len() as int;
    let t = bracketed(a) + seq![' '];
    assert(t.subrange(0, n + 2) =~= bracketed(a));
    let g = lemma_bracketed(t, 0, a, ctx);
    assert(gap(t, n + 2, t.len() as int));
    assert(is_formula(t, g));
    law_reading_follows_the_grammar(t, g);
}

/// Digits up to the end of a text.
proof fn lemma_digits_to_the_end(s: Seq<char>, i: int)
    requires
        0 <= i <= s.len(),
        all_digits(s),
    ensures
        skip_digits(s, i) == s.len(),
    decreases s.len() - i,
{
    if i < s.len() {
        lemma_digits_to_the_end(s, i + 1);
    }
}

/// Digits somewhere in a text spell a number there with their value.
proof fn lemma_digits_spell(s: Seq<char>, i: int, d: Seq<char>, ctx: BoxContext) -> (f: Formula)
    requires
        0 <= i,
        0 < d.len(),
        i + d.len() <= s.len() <= usize::MAX,
        s.subrange(i, i + d.len()) == d,
        all_digits(d),
    ensures
        spells_atom(s, i, i + d.len(), f),
        spells_factor(s, i, i + d.len(), f),
        spells_term(s, i, i + d.len(), f),
        spells_sum(s, i, i + d.len(), f),
        exact_value(f, s, ctx) == exact_int(digits_value(d) as int),
{
    let j = i + d.len();
    let f = Formula::Number { start: i as usize, end: j as usize };
    lemma_digits_to_the_end(d, 0);
    assert(spells_atom(s, i, j, f));
    lemma_atom_counts(s, i, j, f);
    f
}

/// A whole number has its own value.
pub proof fn law_numbers_have_their_value(n: int, ctx: BoxContext, s: u64)
    requires
        0 <= n <= 0x20_0000_0000_0000,
        int_text(n).len() <= usize::MAX,
    ensures
        has_value(int_text(n), ctx, n),
        shows_number(int_text(n), ctx, s, n),
{
    let d = int_text(n);
    lemma_nat_text(n as nat);
    assert(d.subrange(0, d.len() as int) =~= d);
    let f = lemma_digits_spell(d, 0, d, ctx);
    lemma_whole(d, f, ctx);
    assert(is_digit(d[0]));
    lemma_formula_block(d, ctx, s);
}

/// A name somewhere in a text spells its number there.
proof fn lemma_name_spells(s: Seq<char>, i: int, name: Seq<char>, ctx: BoxContext) -> (f: Formula)
    requires
        0 <= i,
        0 < name.len(),
        i + name.len() <= s.len() <= usize::MAX,
        s.subrange(i, i + name.len()) == name,
        variable_named(name) is Some,
    ensures
        spells_atom(s, i, i + name.len(), f),
        spells_factor(s, i, i + name.len(), f),
        spells_term(s, i, i + name.len(), f),
        spells_sum(s, i, i + name.len(), f),
        exact_value(f, s, ctx) == exact_int(variable_value(ctx, variable_named(name)->0)),
{
    let f = Formula::Variable(variable_named(name)->0);
    assert(spells_atom(s, i, i + name.len(), f));
    lemma_atom_counts(s, i, i + name.len(), f);
    f
}

/// The names that can stand in formulas.
proof fn lemma_names()
    ensures
        "box_x_position"@.len() == 14,
        "box_y_position"@.len() == 14,
        "box_width"@.len() == 9,
        "box_height"@.len() == 10,
        "box_color_r"@.len() == 11,
        "box_color_g"@.len() == 11,
        "box_color_b"@.len() == 11,
        "box_pixel_count"@.len() == 15,
        "box_id"@.len() == 6,
        "box_x_position"@ != "box_y_position"@,
        "box_color_r"@ != "box_color_g"@,
        "box_color_r"@ != "box_color_b"@,
        "box_color_g"@ != "box_color_b"@,
{
    reveal_strlit("box_x_position");
    reveal_strlit("box_y_position");
    reveal_strlit("box_width");
    reveal_strlit("box_height");
    reveal_strlit("box_color_r");
    reveal_strlit("box_color_g");
    reveal_strlit("box_color_b");
    reveal_strlit("box_pixel_count");
    reveal_strlit("box_id");
    assert("box_x_position"@[4] != "box_y_position"@[4]);
    assert("box_color_r"@[10] != "box_color_g"@[10]);
    assert("box_color_r"@[10] != "box_color_b"@[10]);
    assert("box_color_g"@[10] != "box_color_b"@[10]);
}

/// What the names in formulas stand for.
pub proof fn law_names_stand_for_the_box(ctx: BoxContext)
    ensures
        is_small(ctx.x as int) ==> has_value("box_x_position"@, ctx, ctx.x as int),
        is_small(ctx.y as int) ==> has_value("box_y_position"@, ctx, ctx.y as int),
        is_small(ctx.w as int) ==> has_value("box_width"@, ctx, ctx.w as int),
        is_small(ctx.h as int) ==> has_value("box_height"@, ctx, ctx.h as int),
        has_value("box_color_r"@, ctx, ctx.r as int),
        has_value("box_color_g"@, ctx, ctx.g as int),
        has_value("box_color_b"@, ctx, ctx.b as int),
        is_small(ctx.pixels as int) ==> has_value("box_pixel_count"@, ctx, ctx.pixels as int),
        has_value("box_id"@, ctx, ctx.id as int),
{
    lemma_names();
    lemma_name_alone("box_x_position"@, ctx);
    lemma_name_alone("box_y_position"@, ctx);
    lemma_name_alone("box_width"@, ctx);
    lemma_name_alone("box_height"@, ctx);
    lemma_name_alone("box_color_r"@, ctx);
    lemma_name_alone("box_color_g"@, ctx);
    lemma_name_alone("box_color_b"@, ctx);
    lemma_name_alone("box_pixel_count"@, ctx);
    lemma_name_alone("box_id"@, ctx);
}

proof fn lemma_name_alone(name: Seq<char>, ctx: BoxContext)
    requires
        0 < name.len() <= 15,
        variable_named(name) is Some,
    ensures
        ({
            let v = variable_value(ctx, variable_named(name)->0);
            is_small(v) ==> has_value(name, ctx, v)
        }),
{
    assert(name.subrange(0, name.len() as int) =~= name);
    let f = lemma_name_spells(name, 0, name, ctx);
    lemma_whole(name, f, ctx);
}

/// A name means the same alone, in brackets, and with nothing added to it.
#[verifier::spinoff_prover]
#[verifier::rlimit(40)]
pub proof fn law_name_means_the_same_in_a_formula(name: Seq<char>, ctx: BoxContext, s: u64)
    requires
        name == "box_color_r"@ || name == "box_color_g"@ || name == "box_color_b"@ || name
            == "box_pixel_count"@ || name == "box_id"@,
        is_small(ctx.pixels as int),
    ensures
        block_meaning(name, ctx, s).0 is Text,
        block_meaning(bracketed(name), ctx, s) == block_meaning(name, ctx, s),
        block_meaning(name + seq![' ', '+', ' ', '0'], ctx, s) == block_meaning(name, ctx, s),
{
    lemma_names();
    lemma_property_alone(name, ctx, s);
    lemma_name_alone(name, ctx);
    let x = variable_value(ctx, variable_named(name)->0);
    law_brackets_change_nothing(name, ctx, s, x);
    lemma_plus_zero_shows(name, ctx, s, x);
}

#[verifier::spinoff_prover]
#[verifier::rlimit(40)]
proof fn lemma_plus_zero_shows(name: Seq<char>, ctx: BoxContext, s: u64, x: int)
    requires
        name == "box_color_r"@ || name == "box_color_g"@ || name == "box_color_b"@ || name
            == "box_pixel_count"@ || name == "box_id"@,
        variable_named(name) is Some,
        x == variable_value(ctx, variable_named(name)->0),
        is_small(x),
    ensures
        shows_number(name + seq![' ', '+', ' ', '0'], ctx, s, x),
{
    lemma_names();
    lemma_plus_zero(name, ctx);
    lemma_name_plus_zero_is_a_formula(name, ctx, s);
}

/// A name with nothing added to it has the value of the name.
#[verifier::spinoff_prover]
#[verifier::rlimit(40)]
proof fn lemma_plus_zero(name: Seq<char>, ctx: BoxContext)
    requires
        0 < name.len() <= 15,
        variable_named(name) is Some,
    ensures
        ({
            let t = name + seq![' ', '+', ' ', '0'];
            &&& formula_of(t) is Some
            &&& exact_value(formula_of(t)->0, t, ctx) == exact_binary(
                Operator::Add,
                exact_int(variable_value(ctx, variable_named(name)->0)),
                exact_int(0),
            )
        }),
{
    let t = name + seq![' ', '+', ' ', '0'];
    let n = name.len() as int;
    assert(t.subrange(0, n) =~= name);
    let zero = seq!['0'];
    assert(t.subrange(n + 3, n + 4) =~= zero);
    assert(all_digits(zero));
    assert(zero.drop_last() =~= Seq::<char>::empty());
    assert(digits_value(zero.drop_last()) == 0);
    assert(digits_value(zero) == 0);
    let a = lemma_name_spells(t, 0, name, ctx);
    let b = lemma_digits_spell(t, n + 3, zero, ctx);
    assert(gap(t, n, n + 1));
    assert(gap(t, n + 2, n + 3));
    lemma_spaced(t, n + 2, n + 3, n + 4, b);
    let f = lemma_addition(t, 0, n, n + 1, n + 4, Operator::Add, a, b);
    lemma_whole(t, f, ctx);
}

/// What a name shows that stands alone.
proof fn lemma_property_alone(name: Seq<char>, ctx: BoxContext, s: u64)
    requires
        name == "box_color_r"@ || name == "box_color_g"@ || name == "box_color_b"@ || name
            == "box_pixel_count"@ || name == "box_id"@,
    ensures
        block_meaning(name, ctx, s) == (
            Meaning::Text(int_text(variable_value(ctx, variable_named(name)->0))),
            s,
        ),
{
    lemma_names();
    reveal_strlit("box_color_r");
    reveal_strlit("box_color_g");
    reveal_strlit("box_color_b");
    reveal_strlit("box_pixel_count");
    reveal_strlit("box_id");
    reveal_strlit("box_pixel_percent_");
    lemma_not_random(name, s);
    lemma_not_percent(name, 17);
    reveal_strlit("box_color_rgb_hex_upper");
    reveal_strlit("box_color_rgb_hex_lower");
    reveal_strlit("box_color_rgb");
    reveal_strlit("box_color_r_hex_upper");
    reveal_strlit("box_color_g_hex_upper");
    reveal_strlit("box_color_b_hex_upper");
    reveal_strlit("box_color_r_hex_lower");
    reveal_strlit("box_color_g_hex_lower");
    reveal_strlit("box_color_b_hex_lower");
    reveal(block_meaning);
}

proof fn lemma_name_plus_zero_is_a_formula(name: Seq<char>, ctx: BoxContext, s: u64)
    requires
        name == "box_color_r"@ || name == "box_color_g"@ || name == "box_color_b"@ || name
            == "box_pixel_count"@ || name == "box_id"@,
    ensures
        ({
            let t = name + seq![' ', '+', ' ', '0'];
            block_meaning(t, ctx, s) == (formula_meaning(t, ctx), s)
        }),
{
    let t = name + seq![' ', '+', ' ', '0'];
    lemma_names();
    reveal_strlit("box_color_r");
    reveal_strlit("box_color_g");
    reveal_strlit("box_color_b");
    reveal_strlit("box_pixel_count");
    reveal_strlit("box_id");
    reveal_strlit("box_pixel_percent_");
    assert(t[0] == name[0]);
    lemma_not_random(t, s);
    if name == "box_pixel_count"@ {
        assert(t[10] == 'c');
        lemma_not_percent(t, 10);
    } else {
        assert(t[4] == name[4]);
        lemma_not_percent(t, 4);
    }
    reveal_strlit("box_color_rgb_hex_upper");
    reveal_strlit("box_color_rgb_hex_lower");
    reveal_strlit("box_color_rgb");
    reveal_strlit("box_color_r_hex_upper");
    reveal_strlit("box_color_g_hex_upper");
    reveal_strlit("box_color_b_hex_upper");
    reveal_strlit("box_color_r_hex_lower");
    reveal_strlit("box_color_g_hex_lower");
    reveal_strlit("box_color_b_hex_lower");
    assert(t[t.len() - 1] == '0');
    reveal(block_meaning);
}

} // verus!
