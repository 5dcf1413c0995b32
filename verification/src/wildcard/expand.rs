//! Expansion of a template.
use super::chars::{
    after, append_chars, chars_of, find_char, lemma_position, lemma_position_shift, position,
    slice_of, string_of,
};
use super::eval::{
    block_meaning, eval_wildcard, law_unknown_block_draws_nothing, BoxContext, Expansion, Meaning,
};
use crate::rng::Rng;
use vstd::prelude::*;

verus! {

/// A block whose value is a real number, which is for the caller to work out.
#[derive(Debug)]
pub struct Pending {
    /// What the block stands for.
    pub task: Expansion,
    /// The inside of the block.
    pub inner: String,
    /// The template behind the block.
    pub rest: String,
}

/// How far a template was expanded: the text so far, and the block at which
/// the expansion waits, if there is one.
#[derive(Debug)]
pub struct Progress {
    pub out: String,
    pub pending: Option<Pending>,
}

/// The view of a [`Progress`], with the state of the random generator.
pub struct Expanded {
    pub out: Seq<char>,
    pub state: u64,
    pub pending: Option<(Meaning, Seq<char>, Seq<char>)>,
}

/// The view of a block at which an expansion may wait.
pub open spec fn waiting_at(pending: Option<Pending>) -> Option<(Meaning, Seq<char>, Seq<char>)> {
    match pending {
        Some(p) => Some((p.task@, p.inner@, p.rest@)),
        None => None,
    }
}

impl Progress {
    /// The progress as a mathematical value, beside a generator state.
    pub open spec fn with_state(self, state: u64) -> Expanded {
        Expanded { out: self.out@, state, pending: waiting_at(self.pending) }
    }
}

/// What the caller has worked out for a block that waits: the text, which is
/// empty if the block has no value, and the state in which working it out has
/// left the random generator.
pub struct Answer {
    pub text: Seq<char>,
    pub state: u64,
}

/// `text` begins with a block that is closed.
pub open spec fn opens_block(text: Seq<char>) -> bool {
    text.len() > 1 && text[0] == '$' && text[1] == '[' && position(text, ']', 2) < text.len()
}

/// The block with an inside.
pub open spec fn block_of(inner: Seq<char>) -> Seq<char> {
    seq!['$', '['] + inner + seq![']']
}

/// The expansion with `front` put before it.
pub open spec fn behind(front: Seq<char>, e: Expanded) -> Expanded {
    Expanded { out: front + e.out, ..e }
}

/// What a block shows for an answer: the answer, or itself if that is empty.
pub open spec fn shown(inner: Seq<char>, answer: Seq<char>) -> Seq<char> {
    if answer.len() == 0 {
        block_of(inner)
    } else {
        answer
    }
}

/// The expansion of a template in generator state `s`, up to the first block
/// that waits for the caller.
pub open spec fn expanded(text: Seq<char>, ctx: BoxContext, s: u64) -> Expanded
    decreases text.len(),
{
    if text.len() == 0 {
        Expanded { out: Seq::empty(), state: s, pending: None }
    } else if opens_block(text) {
        let close = position(text, ']', 2);
        let inner = text.subrange(2, close);
        let rest = after(text, close + 1);
        let (meaning, t) = block_meaning(inner, ctx, s);
        if rest.len() < text.len() {
            match meaning {
                Meaning::Text(answer) => behind(shown(inner, answer), expanded(rest, ctx, t)),
                Meaning::Nothing => behind(block_of(inner), expanded(rest, ctx, t)),
                _ => Expanded {
                    out: Seq::empty(),
                    state: t,
                    pending: Some((meaning, inner, rest)),
                },
            }
        } else {
            Expanded { out: Seq::empty(), state: s, pending: None }
        }
    } else {
        behind(seq![text[0]], expanded(text.drop_first(), ctx, s))
    }
}

fn push_block(out: &mut String, inner: &[char])
    ensures
        final(out)@ == old(out)@ + block_of(inner@),
{
    let ghost before = out@;
    out.push('$');
    out.push('[');
    append_chars(out, inner);
    out.push(']');
    assert(out@ =~= before + block_of(inner@));
}

/// The expansion of a template in generator state `s` with the blocks that wait
/// for the caller answered in turn, up to the first one without an answer.
pub open spec fn completed(
    text: Seq<char>,
    ctx: BoxContext,
    s: u64,
    answers: Seq<Answer>,
) -> Expanded
    decreases answers.len(),
{
    let e = expanded(text, ctx, s);
    if e.pending is Some && answers.len() > 0 {
        let (_, inner, rest) = e.pending->0;
        behind(
            e.out + shown(inner, answers[0].text),
            completed(rest, ctx, answers[0].state, answers.drop_first()),
        )
    } else {
        e
    }
}

/// Puts the answer for a block behind a text, or the block itself if the
/// answer is empty.
fn append_answer(out: &mut String, inner: &str, answer: &str)
    ensures
        final(out)@ == old(out)@ + shown(inner@, answer@),
{
    let chars = chars_of(answer);
    if chars.len() == 0 {
        push_block(out, &chars_of(inner));
    } else {
        append_chars(out, &chars);
    }
}

/// Puts what the block with an inside shows behind a text, unless the block
/// waits for the caller.
fn push_meaning(out: &mut String, inner: &[char], e: Expansion) -> (waiting: Option<Expansion>)
    ensures
        match e@ {
            Meaning::Text(answer) => waiting is None && final(out)@ == old(out)@ + shown(
                inner@,
                answer,
            ),
            Meaning::Nothing => waiting is None && final(out)@ == old(out)@ + block_of(inner@),
            _ => waiting == Some(e) && final(out)@ == old(out)@,
        },
{
    match e {
        Expansion::Text(answer) => {
            append_answer(out, &string_of(inner), &answer);
            None
        },
        Expansion::Nothing => {
            push_block(out, inner);
            None
        },
        task => Some(task),
    }
}

/// The expansion of a template that begins with a closed block.
proof fn lemma_expanded_block(text: Seq<char>, ctx: BoxContext, s: u64, m: Meaning, t: u64)
    requires
        opens_block(text),
        block_meaning(text.subrange(2, position(text, ']', 2)), ctx, s) == (m, t),
    ensures
        ({
            let close = position(text, ']', 2);
            let inner = text.subrange(2, close);
            let rest = after(text, close + 1);
            expanded(text, ctx, s) == match m {
                Meaning::Text(answer) => behind(shown(inner, answer), expanded(rest, ctx, t)),
                Meaning::Nothing => behind(block_of(inner), expanded(rest, ctx, t)),
                _ => Expanded { out: Seq::empty(), state: t, pending: Some((m, inner, rest)) },
            }
        }),
{
    lemma_position(text, ']', 2);
}

/// Expands the `$[...]` blocks of a template up to the first block whose value
/// is a real number. Blocks that mean nothing stay as they are, and so does all
/// text outside of blocks.
pub fn expand_wildcards(text: &str, ctx: &BoxContext, rng: &mut Rng) -> (p: Progress)
    ensures
        p.with_state(final(rng)@) == expanded(text@, *ctx, old(rng)@),
{
    let chars = chars_of(text);
    let n = chars.len();
    let ghost whole = expanded(text@, *ctx, rng@);
    let mut out = String::new();
    let mut i: usize = 0;
    proof {
        assert(after(text@, 0) =~= text@);
        lemma_behind_empty(whole);
    }
    while i < n
        invariant
            i <= n == chars@.len(),
            chars@ == text@,
            whole == expanded(text@, *ctx, old(rng)@),
            whole == behind(out@, expanded(after(text@, i as int), *ctx, rng@)),
        decreases n - i,
    {
        let ghost tail = after(text@, i as int);
        let ghost s = rng@;
        let ghost before = out@;
        let mut close: usize = n;
        if chars[i] == '$' && i + 1 < n && chars[i + 1] == '[' {
            close = find_char(&chars, ']', i + 2);
            proof {
                lemma_position_shift(text@, ']', i as int, i + 2);
            }
        }
        assert(opens_block(tail) <==> close < n);
        if close < n {
            let inner = slice_of(&chars, i + 2, close);
            let e = eval_wildcard(&inner, ctx, rng);
            let ghost m = e@;
            let ghost rest = after(text@, close + 1);
            proof {
                assert(inner@ =~= tail.subrange(2, close - i));
                assert(after(tail, close - i + 1) =~= rest);
                lemma_expanded_block(tail, *ctx, s, m, rng@);
            }
            if let Some(task) = push_meaning(&mut out, &inner, e) {
                assert(before + Seq::<char>::empty() =~= before);
                return Progress {
                    out,
                    pending: Some(
                        Pending {
                            task,
                            inner: string_of(&inner),
                            rest: string_of(&slice_of(&chars, close + 1, n)),
                        },
                    ),
                };
            }
            proof {
                if let Meaning::Text(answer) = m {
                    lemma_behind_twice(before, shown(inner@, answer), expanded(rest, *ctx, rng@));
                } else {
                    lemma_behind_twice(before, block_of(inner@), expanded(rest, *ctx, rng@));
                }
            }
            i = close + 1;
        } else {
            out.push(chars[i]);
            proof {
                assert(out@ =~= before + seq![tail[0]]);
                assert(tail.drop_first() =~= after(text@, i + 1));
                lemma_behind_twice(before, seq![tail[0]], expanded(tail.drop_first(), *ctx, s));
            }
            i = i + 1;
        }
    }
    assert(out@ + Seq::<char>::empty() =~= out@);
    Progress { out, pending: None }
}

/// Goes on with an expansion that waits at a block: puts the caller's answer
/// behind the text so far, or the block itself if the answer is empty, and
/// expands what follows up to the next block that waits.
pub fn resume(
    out: &mut String,
    p: Pending,
    answer: &str,
    ctx: &BoxContext,
    rng: &mut Rng,
) -> (next: Option<Pending>)
    ensures
        ({
            let e = expanded(p.rest@, *ctx, old(rng)@);
            final(out)@ == old(out)@ + shown(p.inner@, answer@) + e.out && final(rng)@ == e.state
                && waiting_at(next) == e.pending
        }),
{
    append_answer(out, &p.inner, answer);
    let progress = expand_wildcards(&p.rest, ctx, rng);
    append_chars(out, &chars_of(&progress.out));
    progress.pending
}

proof fn lemma_behind_empty(e: Expanded)
    ensures
        behind(Seq::empty(), e) == e,
{
    assert(Seq::<char>::empty() + e.out =~= e.out);
}

proof fn lemma_behind_twice(a: Seq<char>, b: Seq<char>, e: Expanded)
    ensures
        behind(a, behind(b, e)) == behind(a + b, e),
{
    assert(a + (b + e.out) =~= (a + b) + e.out);
}

/// Text without a dollar sign comes through as it is, and what follows it is
/// expanded as if it stood alone.
pub proof fn law_plain_text_comes_through(
    front: Seq<char>,
    rest: Seq<char>,
    ctx: BoxContext,
    s: u64,
)
    requires
        !front.contains('$'),
    ensures
        expanded(front + rest, ctx, s) == behind(front, expanded(rest, ctx, s)),
    decreases front.len(),
{
    let text = front + rest;
    if front.len() == 0 {
        assert(text =~= rest);
        assert(front =~= Seq::<char>::empty());
        lemma_behind_empty(expanded(rest, ctx, s));
    } else {
        let c = front[0];
        let tail = front.drop_first();
        assert(front.contains(front[0]));
        assert(text[0] == c);
        assert(text.drop_first() =~= tail + rest);
        assert forall|i: int| 0 <= i < tail.len() implies #[trigger] tail[i] != '$' by {
            assert(front.contains(front[i + 1]));
        }
        law_plain_text_comes_through(tail, rest, ctx, s);
        lemma_behind_twice(seq![c], tail, expanded(rest, ctx, s));
        assert(seq![c] + tail =~= front);
    }
}

/// Every block that is opened in `text` is also closed in it.
pub open spec fn blocks_closed(text: Seq<char>) -> bool {
    forall|i: int|
        0 <= i && i + 1 < text.len() && #[trigger] text[i] == '$' && text[i + 1] == '['
            ==> position(text, ']', i + 2) < text.len()
}

/// No block that is opened in `text` is closed in it: behind a `$[` there is no
/// `]`.
pub open spec fn no_block_closed(text: Seq<char>) -> bool {
    forall|i: int, k: int|
        0 <= i && i + 2 <= k < text.len() && #[trigger] text[i] == '$' && text[i + 1] == '['
            ==> #[trigger] text[k] != ']'
}

/// A search that ends in `a` ends in the same place whatever follows `a`.
proof fn lemma_position_in_front(a: Seq<char>, b: Seq<char>, i: int)
    requires
        0 <= i,
        position(a, ']', i) < a.len(),
    ensures
        position(a + b, ']', i) == position(a, ']', i),
    decreases a.len() - i,
{
    if i < a.len() {
        assert((a + b)[i] == a[i]);
        if a[i] != ']' {
            lemma_position_in_front(a, b, i + 1);
        }
    }
}

/// What follows the first `n` characters closes its blocks if the whole does.
proof fn lemma_blocks_closed_after(text: Seq<char>, n: int)
    requires
        0 <= n <= text.len(),
        blocks_closed(text),
    ensures
        blocks_closed(after(text, n)),
{
    let tail = after(text, n);
    assert forall|i: int|
        0 <= i && i + 1 < tail.len() && #[trigger] tail[i] == '$' && tail[i + 1]
            == '[' implies position(tail, ']', i + 2) < tail.len() by {
        assert(text[n + i] == '$' && text[n + i + 1] == '[');
        lemma_position_shift(text, ']', n, n + i + 2);
    }
}

/// A template can be expanded in parts: where the first part closes its blocks
/// and does not end in a dollar sign, the whole shows what the parts show one
/// after the other, and the second part goes on with the random generator where
/// the first left it. Where a block of the first part waits for the caller, the
/// whole waits at that block, and the second part is left to be expanded too.
pub proof fn law_templates_expand_in_parts(a: Seq<char>, b: Seq<char>, ctx: BoxContext, s: u64)
    requires
        blocks_closed(a),
        a.len() > 0 ==> a.last() != '$',
    ensures
        ({
            let first = expanded(a, ctx, s);
            match first.pending {
                None => expanded(a + b, ctx, s) == behind(
                    first.out,
                    expanded(b, ctx, first.state),
                ),
                Some((m, inner, rest)) => expanded(a + b, ctx, s) == (Expanded {
                    pending: Some((m, inner, rest + b)),
                    ..first
                }),
            }
        }),
    decreases a.len(),
{
    let text = a + b;
    let first = expanded(a, ctx, s);
    if a.len() == 0 {
        assert(text =~= b);
        lemma_behind_empty(expanded(b, ctx, s));
    } else if opens_block(a) {
        let close = position(a, ']', 2);
        let inner = a.subrange(2, close);
        let rest = after(a, close + 1);
        let (m, t) = block_meaning(inner, ctx, s);
        lemma_position(a, ']', 2);
        lemma_position_in_front(a, b, 2);
        assert(opens_block(text));
        assert(text.subrange(2, close) =~= inner);
        assert(after(text, close + 1) =~= rest + b);
        lemma_expanded_block(a, ctx, s, m, t);
        lemma_expanded_block(text, ctx, s, m, t);
        lemma_blocks_closed_after(a, close + 1);
        law_templates_expand_in_parts(rest, b, ctx, t);
        let second = expanded(rest, ctx, t);
        if m is Text || m is Nothing {
            let front = if let Meaning::Text(answer) = m {
                shown(inner, answer)
            } else {
                block_of(inner)
            };
            lemma_behind_twice(front, second.out, expanded(b, ctx, second.state));
        }
    } else {
        let c = seq![a[0]];
        let rest = a.drop_first();
        assert(!opens_block(text)) by {
            if a.len() > 1 {
                assert(text[0] == a[0] && text[1] == a[1]);
            } else {
                assert(text[0] == a.last());
            }
        }
        assert(rest =~= after(a, 1));
        assert(text.drop_first() =~= rest + b);
        lemma_blocks_closed_after(a, 1);
        law_templates_expand_in_parts(rest, b, ctx, s);
        let second = expanded(rest, ctx, s);
        lemma_behind_twice(c, second.out, expanded(b, ctx, second.state));
    }
}

/// A template that closes no block comes through as it is, without a draw from
/// the random generator.
pub proof fn law_unclosed_block_comes_through(text: Seq<char>, ctx: BoxContext, s: u64)
    requires
        no_block_closed(text),
    ensures
        expanded(text, ctx, s) == (Expanded { out: text, state: s, pending: None }),
    decreases text.len(),
{
    if text.len() == 0 {
        assert(text =~= Seq::<char>::empty());
    } else {
        let rest = text.drop_first();
        if opens_block(text) {
            lemma_position(text, ']', 2);
        }
        assert(no_block_closed(rest)) by {
            assert forall|i: int, k: int|
                0 <= i && i + 2 <= k < rest.len() && #[trigger] rest[i] == '$' && rest[i + 1]
                    == '[' implies #[trigger] rest[k] != ']' by {
                assert(rest[i] == text[i + 1] && rest[i + 1] == text[i + 2]);
                assert(rest[k] == text[k + 1]);
            }
        }
        law_unclosed_block_comes_through(rest, ctx, s);
        assert(seq![text[0]] + rest =~= text);
    }
}

/// A block that means nothing stays as it is, draws nothing from the random
/// generator, and what follows it is expanded.
pub proof fn law_unknown_block_stays(inner: Seq<char>, rest: Seq<char>, ctx: BoxContext, s: u64)
    requires
        !inner.contains(']'),
        block_meaning(inner, ctx, s).0 is Nothing,
    ensures
        expanded(block_of(inner) + rest, ctx, s) == behind(
            block_of(inner),
            expanded(rest, ctx, s),
        ),
{
    let text = block_of(inner) + rest;
    law_unknown_block_draws_nothing(inner, ctx, s);
    let (m, t) = block_meaning(inner, ctx, s);
    lemma_block_close(inner, rest, 2);
    let close = position(text, ']', 2);
    assert(text.subrange(2, close) =~= inner);
    assert(after(text, close + 1) =~= rest);
    lemma_expanded_block(text, ctx, s, m, t);
}

/// A block with a text as its meaning shows that text, and what follows it is
/// expanded.
pub proof fn law_block_shows_its_text(
    inner: Seq<char>,
    answer: Seq<char>,
    rest: Seq<char>,
    ctx: BoxContext,
    s: u64,
)
    requires
        !inner.contains(']'),
        block_meaning(inner, ctx, s).0 == Meaning::Text(answer),
        answer.len() > 0,
    ensures
        expanded(block_of(inner) + rest, ctx, s) == behind(
            answer,
            expanded(rest, ctx, block_meaning(inner, ctx, s).1),
        ),
{
    let text = block_of(inner) + rest;
    let (m, t) = block_meaning(inner, ctx, s);
    lemma_block_close(inner, rest, 2);
    let close = position(text, ']', 2);
    assert(text.subrange(2, close) =~= inner);
    assert(after(text, close + 1) =~= rest);
    lemma_expanded_block(text, ctx, s, m, t);
}

/// A block closes behind its inside.
proof fn lemma_block_close(inner: Seq<char>, rest: Seq<char>, i: int)
    requires
        !inner.contains(']'),
        2 <= i <= inner.len() + 2,
    ensures
        position(block_of(inner) + rest, ']', i) == inner.len() + 2,
    decreases inner.len() + 2 - i,
{
    let text = block_of(inner) + rest;
    if i < inner.len() + 2 {
        assert(text[i] == inner[i - 2]);
        assert(inner.contains(inner[i - 2]));
        lemma_block_close(inner, rest, i + 1);
    } else {
        assert(text[i] == ']');
    }
}

/// Where an expansion waits for the caller, less of the template is left than
/// there was, so going on comes to an end.
pub proof fn law_waiting_makes_progress(text: Seq<char>, ctx: BoxContext, s: u64)
    ensures
        expanded(text, ctx, s).pending matches Some((_, _, rest)) ==> rest.len() < text.len(),
    decreases text.len(),
{
    if text.len() == 0 {
    } else if opens_block(text) {
        let close = position(text, ']', 2);
        let inner = text.subrange(2, close);
        let rest = after(text, close + 1);
        let (m, t) = block_meaning(inner, ctx, s);
        lemma_position(text, ']', 2);
        lemma_expanded_block(text, ctx, s, m, t);
        law_waiting_makes_progress(rest, ctx, t);
    } else {
        law_waiting_makes_progress(text.drop_first(), ctx, s);
    }
}

/// Going on with an answer from the block at which a template waits gives what
/// the template shows with that answer too.
pub proof fn law_resuming_adds_an_answer(
    text: Seq<char>,
    ctx: BoxContext,
    s: u64,
    answers: Seq<Answer>,
    answer: Answer,
)
    requires
        completed(text, ctx, s, answers).pending is Some,
    ensures
        ({
            let e = completed(text, ctx, s, answers);
            let (_, inner, rest) = e.pending->0;
            completed(text, ctx, s, answers.push(answer)) == behind(
                e.out + shown(inner, answer.text),
                expanded(rest, ctx, answer.state),
            )
        }),
    decreases answers.len(),
{
    let all = answers.push(answer);
    let first = expanded(text, ctx, s);
    let (_, inner, rest) = first.pending->0;
    if answers.len() == 0 {
        assert(completed(rest, ctx, answer.state, all.drop_first()) == expanded(
            rest,
            ctx,
            answer.state,
        ));
    } else {
        let others = answers.drop_first();
        let front = first.out + shown(inner, answers[0].text);
        let later = completed(rest, ctx, answers[0].state, others);
        assert(all.drop_first() =~= others.push(answer));
        law_resuming_adds_an_answer(rest, ctx, answers[0].state, others, answer);
        let (_, last, end) = later.pending->0;
        lemma_behind_twice(
            front,
            later.out + shown(last, answer.text),
            expanded(end, ctx, answer.state),
        );
        assert(front + (later.out + shown(last, answer.text)) =~= (front + later.out) + shown(
            last,
            answer.text,
        ));
    }
}

/// A template comes to its end: it waits for no more answers than it has
/// characters.
pub proof fn law_enough_answers_complete_a_template(
    text: Seq<char>,
    ctx: BoxContext,
    s: u64,
    answers: Seq<Answer>,
)
    requires
        text.len() <= answers.len(),
    ensures
        completed(text, ctx, s, answers).pending is None,
    decreases answers.len(),
{
    let first = expanded(text, ctx, s);
    law_waiting_makes_progress(text, ctx, s);
    if first.pending is Some {
        let (_, _, rest) = first.pending->0;
        law_enough_answers_complete_a_template(
            rest,
            ctx,
            answers[0].state,
            answers.drop_first(),
        );
    }
}

/// A template that waits no more takes no notice of further answers.
pub proof fn law_further_answers_change_nothing(
    text: Seq<char>,
    ctx: BoxContext,
    s: u64,
    answers: Seq<Answer>,
    more: Seq<Answer>,
)
    requires
        completed(text, ctx, s, answers).pending is None,
    ensures
        completed(text, ctx, s, answers + more) == completed(text, ctx, s, answers),
    decreases answers.len(),
{
    let first = expanded(text, ctx, s);
    if first.pending is Some {
        let (_, _, rest) = first.pending->0;
        assert((answers + more).drop_first() =~= answers.drop_first() + more);
        law_further_answers_change_nothing(
            rest,
            ctx,
            answers[0].state,
            answers.drop_first(),
            more,
        );
    }
}

/// A block is its inside between `$[` and `]`, and an empty answer leaves it as
/// it is; any other answer takes its place.
pub proof fn law_empty_answer_leaves_the_block(inner: Seq<char>, answer: Seq<char>)
    ensures
        block_of(inner) == "$["@ + inner + "]"@,
        shown(inner, Seq::empty()) == "$["@ + inner + "]"@,
        answer.len() > 0 ==> shown(inner, answer) == answer,
{
    reveal_strlit("$[");
    reveal_strlit("]");
    assert("$["@ =~= seq!['$', '[']);
    assert("]"@ =~= seq![']']);
}

/// A block is taken from `$[` to the first `]` behind it: what stands between
/// them is its inside, and what follows is expanded by itself, or waits with it.
#[verifier::spinoff_prover]
#[verifier::rlimit(40)]
pub proof fn law_block_ends_at_the_first_bracket(
    inner: Seq<char>,
    rest: Seq<char>,
    ctx: BoxContext,
    s: u64,
)
    requires
        !inner.contains(']'),
    ensures
        ({
            let whole = expanded("$["@ + inner + "]"@ + rest, ctx, s);
            let (meaning, t) = block_meaning(inner, ctx, s);
            let later = expanded(rest, ctx, t);
            match meaning {
                Meaning::Text(answer) => whole.out == (if answer.len() > 0 {
                    answer
                } else {
                    "$["@ + inner + "]"@
                }) + later.out && whole.state == later.state && whole.pending == later.pending,
                Meaning::Nothing => whole.out == "$["@ + inner + "]"@ + later.out && whole.state
                    == later.state && whole.pending == later.pending,
                _ => whole.out == Seq::<char>::empty() && whole.state == t && whole.pending == Some(
                    (meaning, inner, rest),
                ),
            }
        }),
{
    law_empty_answer_leaves_the_block(inner, Seq::empty());
    lemma_block_then_rest(inner, rest, ctx, s);
}

/// The expansion of a block with something behind it.
proof fn lemma_block_then_rest(inner: Seq<char>, rest: Seq<char>, ctx: BoxContext, s: u64)
    requires
        !inner.contains(']'),
    ensures
        ({
            let (m, t) = block_meaning(inner, ctx, s);
            expanded(block_of(inner) + rest, ctx, s) == match m {
                Meaning::Text(answer) => behind(shown(inner, answer), expanded(rest, ctx, t)),
                Meaning::Nothing => behind(block_of(inner), expanded(rest, ctx, t)),
                _ => Expanded { out: Seq::empty(), state: t, pending: Some((m, inner, rest)) },
            }
        }),
{
    let text = block_of(inner) + rest;
    let (m, t) = block_meaning(inner, ctx, s);
    lemma_block_close(inner, rest, 2);
    let close = position(text, ']', 2);
    assert(text.subrange(2, close) =~= inner);
    assert(after(text, close + 1) =~= rest);
    lemma_expanded_block(text, ctx, s, m, t);
}

} // verus!
