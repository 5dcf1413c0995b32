//! Text as characters.
use vstd::prelude::*;

verus! {

/// The characters of a text.
pub fn chars_of(text: &str) -> (v: Vec<char>)
    ensures
        v@ == text@,
{
    let mut v: Vec<char> = Vec::new();
    for c in it: text.chars()
        invariant
            v@ == it.seq().take(it.index() as int),
            it.seq() == text@,
    {
        proof {
            assert(it.seq().take(it.index() + 1) =~= it.seq().take(it.index() as int).push(c));
        }
        v.push(c);
    }
    assert(text@.take(text@.len() as int) =~= text@);
    v
}

/// The text made of characters.
pub fn string_of(chars: &[char]) -> (text: String)
    ensures
        text@ == chars@,
{
    let mut text = String::new();
    let mut i: usize = 0;
    while i < chars.len()
        invariant
            i <= chars@.len(),
            text@ == chars@.take(i as int),
        decreases chars@.len() - i,
    {
        assert(chars@.take(i + 1) =~= chars@.take(i as int).push(chars@[i as int]));
        text.push(chars[i]);
        i = i + 1;
    }
    assert(chars@.take(chars@.len() as int) =~= chars@);
    text
}

/// The characters from `from` up to `to`.
pub fn slice_of(chars: &[char], from: usize, to: usize) -> (v: Vec<char>)
    requires
        from <= to <= chars@.len(),
    ensures
        v@ == chars@.subrange(from as int, to as int),
{
    let mut v: Vec<char> = Vec::new();
    let mut i: usize = from;
    while i < to
        invariant
            from <= i <= to <= chars@.len(),
            v@ == chars@.subrange(from as int, i as int),
        decreases to - i,
    {
        assert(chars@.subrange(from as int, i + 1) =~= chars@.subrange(from as int, i as int).push(
            chars@[i as int],
        ));
        v.push(chars[i]);
        i = i + 1;
    }
    v
}

/// Appends characters to a text.
pub fn append_chars(text: &mut String, chars: &[char])
    ensures
        final(text)@ == old(text)@ + chars@,
{
    let ghost before = text@;
    let mut i: usize = 0;
    assert(before + chars@.take(0) =~= before);
    while i < chars.len()
        invariant
            i <= chars@.len(),
            text@ == before + chars@.take(i as int),
        decreases chars@.len() - i,
    {
        assert(before + chars@.take(i + 1) =~= (before + chars@.take(i as int)).push(
            chars@[i as int],
        ));
        text.push(chars[i]);
        i = i + 1;
    }
    assert(chars@.take(chars@.len() as int) =~= chars@);
}

/// `text` begins with `prefix`.
pub open spec fn starts_with(text: Seq<char>, prefix: Seq<char>) -> bool {
    prefix.len() <= text.len() && text.subrange(0, prefix.len() as int) == prefix
}

/// What follows the first `n` characters.
pub open spec fn after(text: Seq<char>, n: int) -> Seq<char> {
    text.subrange(n, text.len() as int)
}

/// What follows `prefix` in a text that begins with it.
pub fn strip_prefix(text: &[char], prefix: &str) -> (rest: Option<Vec<char>>)
    ensures
        match rest {
            Some(v) => starts_with(text@, prefix@) && v@ == after(text@, prefix@.len() as int),
            None => !starts_with(text@, prefix@),
        },
{
    let p = chars_of(prefix);
    if text.len() < p.len() {
        return None;
    }
    let mut i: usize = 0;
    while i < p.len()
        invariant
            i <= p@.len() <= text@.len(),
            p@ == prefix@,
            forall|k: int| 0 <= k < i ==> text@[k] == p@[k],
        decreases p@.len() - i,
    {
        if text[i] != p[i] {
            assert(text@.subrange(0, p@.len() as int)[i as int] != p@[i as int]);
            return None;
        }
        i = i + 1;
    }
    assert(text@.subrange(0, p@.len() as int) =~= p@);
    Some(slice_of(text, p.len(), text.len()))
}

/// Tells whether characters spell a text.
pub fn spells(chars: &[char], text: &str) -> (r: bool)
    ensures
        r == (chars@ == text@),
{
    let t = chars_of(text);
    if chars.len() != t.len() {
        return false;
    }
    let mut i: usize = 0;
    while i < t.len()
        invariant
            i <= t@.len() == chars@.len(),
            t@ == text@,
            forall|k: int| 0 <= k < i ==> chars@[k] == t@[k],
        decreases t@.len() - i,
    {
        if chars[i] != t[i] {
            return false;
        }
        i = i + 1;
    }
    assert(chars@ =~= t@);
    true
}

/// The position of the first `c` in `text` from `from` on, or the length of
/// the text.
pub open spec fn position(text: Seq<char>, c: char, from: int) -> int
    decreases text.len() - from,
{
    if 0 <= from < text.len() && text[from] != c {
        position(text, c, from + 1)
    } else {
        from
    }
}

/// The first `c` is found no earlier than the search begins and no later than
/// the text ends, and no `c` comes before it.
pub proof fn lemma_position(text: Seq<char>, c: char, from: int)
    requires
        0 <= from <= text.len(),
    ensures
        from <= position(text, c, from) <= text.len(),
        forall|k: int| from <= k < position(text, c, from) ==> text[k] != c,
        position(text, c, from) < text.len() ==> text[position(text, c, from)] == c,
    decreases text.len() - from,
{
    if from < text.len() && text[from] != c {
        lemma_position(text, c, from + 1);
    }
}

/// Finds the first `c` from `from` on.
pub fn find_char(text: &[char], c: char, from: usize) -> (r: usize)
    requires
        from <= text@.len(),
    ensures
        r == position(text@, c, from as int),
        from <= r <= text@.len(),
{
    let mut i: usize = from;
    while i < text.len() && text[i] != c
        invariant
            from <= i <= text@.len(),
            position(text@, c, from as int) == position(text@, c, i as int),
        decreases text@.len() - i,
    {
        i = i + 1;
    }
    i
}

/// The parts of `text` between the occurrences of `c`. There is always one.
pub open spec fn split_at_char(text: Seq<char>, c: char) -> Seq<Seq<char>>
    decreases text.len(),
{
    let k = position(text, c, 0);
    if 0 <= k < text.len() {
        seq![text.subrange(0, k)] + split_at_char(after(text, k + 1), c)
    } else {
        seq![text]
    }
}

/// Splits a text at every `c`.
pub fn split_chars(text: &[char], c: char) -> (parts: Vec<Vec<char>>)
    ensures
        parts@.len() == split_at_char(text@, c).len(),
        parts@.len() > 0,
        forall|i: int|
            0 <= i < parts@.len() ==> (#[trigger] parts@[i])@ == split_at_char(text@, c)[i],
{
    let mut parts: Vec<Vec<char>> = Vec::new();
    let mut from: usize = 0;
    assert(after(text@, 0) =~= text@);
    loop
        invariant
            from <= text@.len(),
            parts@.len() + split_at_char(after(text@, from as int), c).len() == split_at_char(
                text@,
                c,
            ).len(),
            forall|i: int|
                0 <= i < parts@.len() ==> (#[trigger] parts@[i])@ == split_at_char(text@, c)[i],
            forall|i: int|
                0 <= i < split_at_char(after(text@, from as int), c).len() ==> split_at_char(
                    text@,
                    c,
                )[parts@.len() + i] == #[trigger] split_at_char(after(text@, from as int), c)[i],
        decreases text@.len() - from,
    {
        let k = find_char(text, c, from);
        let ghost rest = after(text@, from as int);
        proof {
            lemma_position_shift(text@, c, from as int, from as int);
            lemma_position(rest, c, 0);
        }
        let part = slice_of(text, from, k);
        let ghost part_index = parts@.len();
        assert(part@ =~= rest.subrange(0, k - from));
        assert(split_at_char(rest, c)[0] == part@) by {
            assert(k == text@.len() ==> rest.subrange(0, k - from) =~= rest);
        }
        parts.push(part);
        if k == text.len() {
            return parts;
        }
        proof {
            let tail = after(text@, k + 1);
            assert(after(rest, k - from + 1) =~= tail);
            assert forall|i: int| 0 <= i < split_at_char(tail, c).len() implies split_at_char(
                text@,
                c,
            )[parts@.len() + i] == #[trigger] split_at_char(tail, c)[i] by {
                assert(split_at_char(rest, c)[i + 1] == split_at_char(tail, c)[i]);
                assert(split_at_char(text@, c)[part_index + (i + 1)] == split_at_char(rest, c)[i
                    + 1]);
            }
        }
        from = k + 1;
    }
}

/// A search in what follows the first `from` characters ends in the same place
/// as one in the whole text.
pub proof fn lemma_position_shift(text: Seq<char>, c: char, from: int, i: int)
    requires
        0 <= from <= i <= text.len(),
    ensures
        position(after(text, from), c, i - from) == position(text, c, i) - from,
    decreases text.len() - i,
{
    if i < text.len() && text[i] != c {
        lemma_position_shift(text, c, from, i + 1);
    }
}

} // verus!
