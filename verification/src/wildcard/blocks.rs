//! What blocks show that are no formulas.
use super::chars::{after, position, split_at_char};
use super::eval::{
    block_meaning, is_real, property_text, random_text_request, BoxContext, Meaning, ALL_MIX,
    ALNUM_LOWER, ALNUM_MIX, ALNUM_UPPER, ALPHABET_LOWER, ALPHABET_MIX, ALPHABET_UPPER, HEXDIGITS,
    SPECIAL,
};
use super::laws::{
    is_small, law_names_stand_for_the_box, lemma_differs, lemma_not_percent, lemma_not_random,
    shows_number,
};
use super::numbers::{all_digits, hex_text, i64_of, int_of, int_text, is_digit, padded_text};
use crate::rng::{draw, index_draw, next_state, random_chars, range_draw, state_after};
use vstd::prelude::*;
use vstd::utf8::{encode_utf8, is_ascii_chars, is_ascii_chars_encode_utf8};

verus! {

/// The character is one of those that random text of a kind is made of: upper
/// or lower case letters, digits, marks, or the digits of hexadecimal numbers.
pub open spec fn is_of_kind(kind: Seq<char>, c: char) -> bool {
    let lower = 'a' <= c <= 'z';
    let upper = 'A' <= c <= 'Z';
    let number = '0' <= c <= '9';
    let mark = '!' <= c <= '/' || ':' <= c <= '@' || '[' <= c <= '`' || '{' <= c <= '~';
    ||| kind == "random_alphanumeric_upper_"@ && (upper || number)
    ||| kind == "random_alphanumeric_lower_"@ && (lower || number)
    ||| kind == "random_alphanumeric_"@ && (lower || upper || number)
    ||| kind == "random_alphabet_upper_"@ && (upper)
    ||| kind == "random_alphabet_lower_"@ && (lower)
    ||| kind == "random_alphabet_"@ && (lower || upper)
    ||| kind == "random_special_"@ && (mark)
    ||| kind == "random_hex_"@ && (number || 'a' <= c <= 'f')
    ||| kind == "random_string_"@ && (lower || upper || number || mark)
}

/// The text begins a block for random text.
pub open spec fn is_kind(kind: Seq<char>) -> bool {
    ||| kind == "random_alphanumeric_upper_"@
    ||| kind == "random_alphanumeric_lower_"@
    ||| kind == "random_alphanumeric_"@
    ||| kind == "random_alphabet_upper_"@
    ||| kind == "random_alphabet_lower_"@
    ||| kind == "random_alphabet_"@
    ||| kind == "random_special_"@
    ||| kind == "random_hex_"@
    ||| kind == "random_string_"@
}

/// The characters that the set holds are those of the kind, each once.
spec fn covers(charset: Seq<char>, kind: Seq<char>) -> bool {
    &&& charset.len() > 0
    &&& is_ascii_chars(charset)
    &&& forall|i: int| 0 <= i < charset.len() ==> is_of_kind(kind, #[trigger] charset[i])
    &&& forall|c: char| #[trigger] is_of_kind(kind, c) ==> charset.contains(c)
    &&& charset.no_duplicates()
}

/// The names of the kinds of random text.
proof fn lemma_kinds()
    ensures
        "random_alphanumeric_upper_"@.len() == 26,
        "random_alphanumeric_lower_"@.len() == 26,
        "random_alphanumeric_"@.len() == 20,
        "random_alphabet_upper_"@.len() == 22,
        "random_alphabet_lower_"@.len() == 22,
        "random_alphabet_"@.len() == 16,
        "random_special_"@.len() == 15,
        "random_hex_"@.len() == 11,
        "random_string_"@.len() == 14,
        "random_alphanumeric_upper_"@ != "random_alphanumeric_lower_"@,
        "random_alphabet_upper_"@ != "random_alphabet_lower_"@,
{
    reveal_strlit("random_alphanumeric_upper_");
    reveal_strlit("random_alphanumeric_lower_");
    reveal_strlit("random_alphanumeric_");
    reveal_strlit("random_alphabet_upper_");
    reveal_strlit("random_alphabet_lower_");
    reveal_strlit("random_alphabet_");
    reveal_strlit("random_special_");
    reveal_strlit("random_hex_");
    reveal_strlit("random_string_");
    assert("random_alphanumeric_upper_"@[20] != "random_alphanumeric_lower_"@[20]);
    assert("random_alphabet_upper_"@[16] != "random_alphabet_lower_"@[16]);
}

proof fn lemma_alnum_upper()
    ensures
        covers(ALNUM_UPPER@, "random_alphanumeric_upper_"@),
{
    let set = ALNUM_UPPER@;
    let kind = "random_alphanumeric_upper_"@;
    lemma_kinds();
    reveal_strlit("ABCDEFGHIJKLMNOPQRSTUVWXYZ0123456789");
    assert(set.len() == 36);
    assert forall|i: int| 0 <= i < set.len() implies is_of_kind(kind, #[trigger] set[i]) && set[i]
        <= '\u{7f}' by {}
    assert forall|c: char| #[trigger] is_of_kind(kind, c) implies set.contains(c) by {
        let n = c as int;
        let k = if 65 <= n <= 90 {
            n - 65
        } else if 48 <= n <= 57 {
            n - 22
        } else {
            0
        };
        assert(set[k] == c);
    }
    assert forall|i: int, j: int|
        0 <= i < set.len() && 0 <= j < set.len() && i != j implies set[i] != set[j] by {}
}

proof fn lemma_alnum_lower()
    ensures
        covers(ALNUM_LOWER@, "random_alphanumeric_lower_"@),
{
    let set = ALNUM_LOWER@;
    let kind = "random_alphanumeric_lower_"@;
    lemma_kinds();
    reveal_strlit("abcdefghijklmnopqrstuvwxyz0123456789");
    assert(set.len() == 36);
    assert forall|i: int| 0 <= i < set.len() implies is_of_kind(kind, #[trigger] set[i]) && set[i]
        <= '\u{7f}' by {}
    assert forall|c: char| #[trigger] is_of_kind(kind, c) implies set.contains(c) by {
        let n = c as int;
        let k = if 97 <= n <= 122 {
            n - 97
        } else if 48 <= n <= 57 {
            n - 22
        } else {
            0
        };
        assert(set[k] == c);
    }
    assert forall|i: int, j: int|
        0 <= i < set.len() && 0 <= j < set.len() && i != j implies set[i] != set[j] by {}
}

proof fn lemma_alnum_mix()
    ensures
        covers(ALNUM_MIX@, "random_alphanumeric_"@),
{
    let set = ALNUM_MIX@;
    let kind = "random_alphanumeric_"@;
    lemma_kinds();
    reveal_strlit("abcdefghijklmnopqrstuvwxyzABCDEFGHIJKLMNOPQRSTUVWXYZ0123456789");
    assert(set.len() == 62);
    assert forall|i: int| 0 <= i < set.len() implies is_of_kind(kind, #[trigger] set[i]) && set[i]
        <= '\u{7f}' by {}
    assert forall|c: char| #[trigger] is_of_kind(kind, c) implies set.contains(c) by {
        let n = c as int;
        let k = if 97 <= n <= 122 {
            n - 97
        } else if 65 <= n <= 90 {
            n - 39
        } else if 48 <= n <= 57 {
            n + 4
        } else {
            0
        };
        assert(set[k] == c);
    }
    assert forall|i: int, j: int|
        0 <= i < set.len() && 0 <= j < set.len() && i != j implies set[i] != set[j] by {}
}

proof fn lemma_alphabet_upper()
    ensures
        covers(ALPHABET_UPPER@, "random_alphabet_upper_"@),
{
    let set = ALPHABET_UPPER@;
    let kind = "random_alphabet_upper_"@;
    lemma_kinds();
    reveal_strlit("ABCDEFGHIJKLMNOPQRSTUVWXYZ");
    assert(set.len() == 26);
    assert forall|i: int| 0 <= i < set.len() implies is_of_kind(kind, #[trigger] set[i]) && set[i]
        <= '\u{7f}' by {}
    assert forall|c: char| #[trigger] is_of_kind(kind, c) implies set.contains(c) by {
        let n = c as int;
        let k = if 65 <= n <= 90 {
            n - 65
        } else {
            0
        };
        assert(set[k] == c);
    }
    assert forall|i: int, j: int|
        0 <= i < set.len() && 0 <= j < set.len() && i != j implies set[i] != set[j] by {}
}

proof fn lemma_alphabet_lower()
    ensures
        covers(ALPHABET_LOWER@, "random_alphabet_lower_"@),
{
    let set = ALPHABET_LOWER@;
    let kind = "random_alphabet_lower_"@;
    lemma_kinds();
    reveal_strlit("abcdefghijklmnopqrstuvwxyz");
    assert(set.len() == 26);
    assert forall|i: int| 0 <= i < set.len() implies is_of_kind(kind, #[trigger] set[i]) && set[i]
        <= '\u{7f}' by {}
    assert forall|c: char| #[trigger] is_of_kind(kind, c) implies set.contains(c) by {
        let n = c as int;
        let k = if 97 <= n <= 122 {
            n - 97
        } else {
            0
        };
        assert(set[k] == c);
    }
    assert forall|i: int, j: int|
        0 <= i < set.len() && 0 <= j < set.len() && i != j implies set[i] != set[j] by {}
}

proof fn lemma_alphabet_mix()
    ensures
        covers(ALPHABET_MIX@, "random_alphabet_"@),
{
    let set = ALPHABET_MIX@;
    let kind = "random_alphabet_"@;
    lemma_kinds();
    reveal_strlit("abcdefghijklmnopqrstuvwxyzABCDEFGHIJKLMNOPQRSTUVWXYZ");
    assert(set.len() == 52);
    assert forall|i: int| 0 <= i < set.len() implies is_of_kind(kind, #[trigger] set[i]) && set[i]
        <= '\u{7f}' by {}
    assert forall|c: char| #[trigger] is_of_kind(kind, c) implies set.contains(c) by {
        let n = c as int;
        let k = if 97 <= n <= 122 {
            n - 97
        } else if 65 <= n <= 90 {
            n - 39
        } else {
            0
        };
        assert(set[k] == c);
    }
    assert forall|i: int, j: int|
        0 <= i < set.len() && 0 <= j < set.len() && i != j implies set[i] != set[j] by {}
}

proof fn lemma_special()
    ensures
        covers(SPECIAL@, "random_special_"@),
{
    let set = SPECIAL@;
    let kind = "random_special_"@;
    lemma_kinds();
    reveal_strlit("!\"#$%&'()*+,-./:;<=>?@[\\]^_`{|}~");
    assert(set.len() == 32);
    assert forall|i: int| 0 <= i < set.len() implies is_of_kind(kind, #[trigger] set[i]) && set[i]
        <= '\u{7f}' by {}
    assert forall|c: char| #[trigger] is_of_kind(kind, c) implies set.contains(c) by {
        let n = c as int;
        let k = if 33 <= n <= 47 {
            n - 33
        } else if 58 <= n <= 64 {
            n - 43
        } else if 91 <= n <= 96 {
            n - 69
        } else if 123 <= n <= 126 {
            n - 95
        } else {
            0
        };
        assert(set[k] == c);
    }
    assert forall|i: int, j: int|
        0 <= i < set.len() && 0 <= j < set.len() && i != j implies set[i] != set[j] by {}
}

proof fn lemma_hexdigits()
    ensures
        covers(HEXDIGITS@, "random_hex_"@),
{
    let set = HEXDIGITS@;
    let kind = "random_hex_"@;
    lemma_kinds();
    reveal_strlit("0123456789abcdef");
    assert(set.len() == 16);
    assert forall|i: int| 0 <= i < set.len() implies is_of_kind(kind, #[trigger] set[i]) && set[i]
        <= '\u{7f}' by {}
    assert forall|c: char| #[trigger] is_of_kind(kind, c) implies set.contains(c) by {
        let n = c as int;
        let k = if 48 <= n <= 57 {
            n - 48
        } else if 97 <= n <= 102 {
            n - 87
        } else {
            0
        };
        assert(set[k] == c);
    }
    assert forall|i: int, j: int|
        0 <= i < set.len() && 0 <= j < set.len() && i != j implies set[i] != set[j] by {}
}

proof fn lemma_all_mix()
    ensures
        covers(ALL_MIX@, "random_string_"@),
{
    let set = ALL_MIX@;
    let kind = "random_string_"@;
    lemma_kinds();
    reveal_strlit("abcdefghijklmnopqrstuvwxyzABCDEFGHIJKLMNOPQRSTUVWXYZ0123456789!\"#$%&'()*+,-./:;<=>?@[\\]^_`{|}~");
    assert(set.len() == 94);
    assert forall|i: int| 0 <= i < set.len() implies is_of_kind(kind, #[trigger] set[i]) && set[i]
        <= '\u{7f}' by {}
    assert forall|c: char| #[trigger] is_of_kind(kind, c) implies set.contains(c) by {
        let n = c as int;
        let k = if 97 <= n <= 122 {
            n - 97
        } else if 65 <= n <= 90 {
            n - 39
        } else if 48 <= n <= 57 {
            n + 4
        } else if 33 <= n <= 47 {
            n + 29
        } else if 58 <= n <= 64 {
            n + 19
        } else if 91 <= n <= 96 {
            n - 7
        } else if 123 <= n <= 126 {
            n - 33
        } else {
            0
        };
        assert(set[k] == c);
    }
    assert forall|i: int, j: int|
        0 <= i < set.len() && 0 <= j < set.len() && i != j implies set[i] != set[j] by {}
}

proof fn lemma_request_alnum_upper(d: Seq<char>, n: int)
    requires
        d.len() > 0,
        all_digits(d),
        i64_of(d) == Some(n),
    ensures
        random_text_request("random_alphanumeric_upper_"@ + d) == Some((ALNUM_UPPER@, n)),
{
    let inner = "random_alphanumeric_upper_"@ + d;
    lemma_kinds();
    reveal_strlit("random_alphanumeric_upper_");
    assert(is_digit(d[0]));
    assert(inner[26] == d[0]);
    assert(inner.subrange(0, 26) =~= "random_alphanumeric_upper_"@);
    assert(after(inner, 26) =~= d);
}

proof fn lemma_request_alnum_lower(d: Seq<char>, n: int)
    requires
        d.len() > 0,
        all_digits(d),
        i64_of(d) == Some(n),
    ensures
        random_text_request("random_alphanumeric_lower_"@ + d) == Some((ALNUM_LOWER@, n)),
{
    let inner = "random_alphanumeric_lower_"@ + d;
    lemma_kinds();
    reveal_strlit("random_alphanumeric_lower_");
    assert(is_digit(d[0]));
    assert(inner[26] == d[0]);
    reveal_strlit("random_alphanumeric_upper_");
    lemma_differs(inner, "random_alphanumeric_upper_"@, 20);
    assert(inner.subrange(0, 26) =~= "random_alphanumeric_lower_"@);
    assert(after(inner, 26) =~= d);
}

proof fn lemma_request_alnum_mix(d: Seq<char>, n: int)
    requires
        d.len() > 0,
        all_digits(d),
        i64_of(d) == Some(n),
    ensures
        random_text_request("random_alphanumeric_"@ + d) == Some((ALNUM_MIX@, n)),
{
    let inner = "random_alphanumeric_"@ + d;
    lemma_kinds();
    reveal_strlit("random_alphanumeric_");
    assert(is_digit(d[0]));
    assert(inner[20] == d[0]);
    reveal_strlit("random_alphanumeric_upper_");
    lemma_differs(inner, "random_alphanumeric_upper_"@, 20);
    reveal_strlit("random_alphanumeric_lower_");
    lemma_differs(inner, "random_alphanumeric_lower_"@, 20);
    assert(inner.subrange(0, 20) =~= "random_alphanumeric_"@);
    assert(after(inner, 20) =~= d);
}

proof fn lemma_request_alphabet_upper(d: Seq<char>, n: int)
    requires
        d.len() > 0,
        all_digits(d),
        i64_of(d) == Some(n),
    ensures
        random_text_request("random_alphabet_upper_"@ + d) == Some((ALPHABET_UPPER@, n)),
{
    let inner = "random_alphabet_upper_"@ + d;
    lemma_kinds();
    reveal_strlit("random_alphabet_upper_");
    assert(is_digit(d[0]));
    assert(inner[22] == d[0]);
    reveal_strlit("random_alphanumeric_upper_");
    lemma_differs(inner, "random_alphanumeric_upper_"@, 12);
    reveal_strlit("random_alphanumeric_lower_");
    lemma_differs(inner, "random_alphanumeric_lower_"@, 12);
    reveal_strlit("random_alphanumeric_");
    lemma_differs(inner, "random_alphanumeric_"@, 12);
    assert(inner.subrange(0, 22) =~= "random_alphabet_upper_"@);
    assert(after(inner, 22) =~= d);
}

proof fn lemma_request_alphabet_lower(d: Seq<char>, n: int)
    requires
        d.len() > 0,
        all_digits(d),
        i64_of(d) == Some(n),
    ensures
        random_text_request("random_alphabet_lower_"@ + d) == Some((ALPHABET_LOWER@, n)),
{
    let inner = "random_alphabet_lower_"@ + d;
    lemma_kinds();
    reveal_strlit("random_alphabet_lower_");
    assert(is_digit(d[0]));
    assert(inner[22] == d[0]);
    reveal_strlit("random_alphanumeric_upper_");
    lemma_differs(inner, "random_alphanumeric_upper_"@, 12);
    reveal_strlit("random_alphanumeric_lower_");
    lemma_differs(inner, "random_alphanumeric_lower_"@, 12);
    reveal_strlit("random_alphanumeric_");
    lemma_differs(inner, "random_alphanumeric_"@, 12);
    reveal_strlit("random_alphabet_upper_");
    lemma_differs(inner, "random_alphabet_upper_"@, 16);
    assert(inner.subrange(0, 22) =~= "random_alphabet_lower_"@);
    assert(after(inner, 22) =~= d);
}

proof fn lemma_request_alphabet_mix(d: Seq<char>, n: int)
    requires
        d.len() > 0,
        all_digits(d),
        i64_of(d) == Some(n),
    ensures
        random_text_request("random_alphabet_"@ + d) == Some((ALPHABET_MIX@, n)),
{
    let inner = "random_alphabet_"@ + d;
    lemma_kinds();
    reveal_strlit("random_alphabet_");
    assert(is_digit(d[0]));
    assert(inner[16] == d[0]);
    reveal_strlit("random_alphanumeric_upper_");
    lemma_differs(inner, "random_alphanumeric_upper_"@, 12);
    reveal_strlit("random_alphanumeric_lower_");
    lemma_differs(inner, "random_alphanumeric_lower_"@, 12);
    reveal_strlit("random_alphanumeric_");
    lemma_differs(inner, "random_alphanumeric_"@, 12);
    reveal_strlit("random_alphabet_upper_");
    lemma_differs(inner, "random_alphabet_upper_"@, 16);
    reveal_strlit("random_alphabet_lower_");
    lemma_differs(inner, "random_alphabet_lower_"@, 16);
    assert(inner.subrange(0, 16) =~= "random_alphabet_"@);
    assert(after(inner, 16) =~= d);
}

proof fn lemma_request_special(d: Seq<char>, n: int)
    requires
        d.len() > 0,
        all_digits(d),
        i64_of(d) == Some(n),
    ensures
        random_text_request("random_special_"@ + d) == Some((SPECIAL@, n)),
{
    let inner = "random_special_"@ + d;
    lemma_kinds();
    reveal_strlit("random_special_");
    assert(is_digit(d[0]));
    assert(inner[15] == d[0]);
    reveal_strlit("random_alphanumeric_upper_");
    lemma_differs(inner, "random_alphanumeric_upper_"@, 7);
    reveal_strlit("random_alphanumeric_lower_");
    lemma_differs(inner, "random_alphanumeric_lower_"@, 7);
    reveal_strlit("random_alphanumeric_");
    lemma_differs(inner, "random_alphanumeric_"@, 7);
    reveal_strlit("random_alphabet_upper_");
    lemma_differs(inner, "random_alphabet_upper_"@, 7);
    reveal_strlit("random_alphabet_lower_");
    lemma_differs(inner, "random_alphabet_lower_"@, 7);
    reveal_strlit("random_alphabet_");
    lemma_differs(inner, "random_alphabet_"@, 7);
    assert(inner.subrange(0, 15) =~= "random_special_"@);
    assert(after(inner, 15) =~= d);
}

proof fn lemma_request_hexdigits(d: Seq<char>, n: int)
    requires
        d.len() > 0,
        all_digits(d),
        i64_of(d) == Some(n),
    ensures
        random_text_request("random_hex_"@ + d) == Some((HEXDIGITS@, n)),
{
    let inner = "random_hex_"@ + d;
    lemma_kinds();
    reveal_strlit("random_hex_");
    assert(is_digit(d[0]));
    assert(inner[11] == d[0]);
    reveal_strlit("random_alphanumeric_upper_");
    lemma_differs(inner, "random_alphanumeric_upper_"@, 7);
    reveal_strlit("random_alphanumeric_lower_");
    lemma_differs(inner, "random_alphanumeric_lower_"@, 7);
    reveal_strlit("random_alphanumeric_");
    lemma_differs(inner, "random_alphanumeric_"@, 7);
    reveal_strlit("random_alphabet_upper_");
    lemma_differs(inner, "random_alphabet_upper_"@, 7);
    reveal_strlit("random_alphabet_lower_");
    lemma_differs(inner, "random_alphabet_lower_"@, 7);
    reveal_strlit("random_alphabet_");
    lemma_differs(inner, "random_alphabet_"@, 7);
    reveal_strlit("random_special_");
    lemma_differs(inner, "random_special_"@, 7);
    assert(inner.subrange(0, 11) =~= "random_hex_"@);
    assert(after(inner, 11) =~= d);
}

proof fn lemma_request_all_mix(d: Seq<char>, n: int)
    requires
        d.len() > 0,
        all_digits(d),
        i64_of(d) == Some(n),
    ensures
        random_text_request("random_string_"@ + d) == Some((ALL_MIX@, n)),
{
    let inner = "random_string_"@ + d;
    lemma_kinds();
    reveal_strlit("random_string_");
    assert(is_digit(d[0]));
    assert(inner[14] == d[0]);
    reveal_strlit("random_alphanumeric_upper_");
    lemma_differs(inner, "random_alphanumeric_upper_"@, 7);
    reveal_strlit("random_alphanumeric_lower_");
    lemma_differs(inner, "random_alphanumeric_lower_"@, 7);
    reveal_strlit("random_alphanumeric_");
    lemma_differs(inner, "random_alphanumeric_"@, 7);
    reveal_strlit("random_alphabet_upper_");
    lemma_differs(inner, "random_alphabet_upper_"@, 7);
    reveal_strlit("random_alphabet_lower_");
    lemma_differs(inner, "random_alphabet_lower_"@, 7);
    reveal_strlit("random_alphabet_");
    lemma_differs(inner, "random_alphabet_"@, 7);
    reveal_strlit("random_special_");
    lemma_differs(inner, "random_special_"@, 8);
    reveal_strlit("random_hex_");
    lemma_differs(inner, "random_hex_"@, 7);
    assert(inner.subrange(0, 14) =~= "random_string_"@);
    assert(after(inner, 14) =~= d);
}

/// The set of characters that a kind of random text is made of.
proof fn lemma_request(kind: Seq<char>, d: Seq<char>, n: int)
    requires
        is_kind(kind),
        d.len() > 0,
        all_digits(d),
        i64_of(d) == Some(n),
    ensures
        random_text_request(kind + d) is Some,
        covers((random_text_request(kind + d)->0).0, kind),
        (random_text_request(kind + d)->0).1 == n,
{
    lemma_kinds();
    if kind == "random_alphanumeric_upper_"@ {
        lemma_alnum_upper();
        lemma_request_alnum_upper(d, n);
    }     else if kind == "random_alphanumeric_lower_"@ {
        lemma_alnum_lower();
        lemma_request_alnum_lower(d, n);
    }     else if kind == "random_alphanumeric_"@ {
        lemma_alnum_mix();
        lemma_request_alnum_mix(d, n);
    }     else if kind == "random_alphabet_upper_"@ {
        lemma_alphabet_upper();
        lemma_request_alphabet_upper(d, n);
    }     else if kind == "random_alphabet_lower_"@ {
        lemma_alphabet_lower();
        lemma_request_alphabet_lower(d, n);
    }     else if kind == "random_alphabet_"@ {
        lemma_alphabet_mix();
        lemma_request_alphabet_mix(d, n);
    }     else if kind == "random_special_"@ {
        lemma_special();
        lemma_request_special(d, n);
    }     else if kind == "random_hex_"@ {
        lemma_hexdigits();
        lemma_request_hexdigits(d, n);
    }     else if kind == "random_string_"@ {
        lemma_all_mix();
        lemma_request_all_mix(d, n);
    }
}

/// A block for random text shows as many characters as it asks for, all of the
/// kind that it names: what its draws pick out of the characters of that kind,
/// of which none is missing and none counts twice.
pub proof fn law_random_text_is_of_its_kind(
    kind: Seq<char>,
    d: Seq<char>,
    n: nat,
    ctx: BoxContext,
    s: u64,
) -> (charset: Seq<char>)
    requires
        is_kind(kind),
        d.len() > 0,
        forall|i: int| 0 <= i < d.len() ==> '0' <= #[trigger] d[i] <= '9',
        int_of(d) == Some(n as int),
        n <= 0x7FFF_FFFF,
    ensures
        forall|c: char| #[trigger] charset.contains(c) <==> is_of_kind(kind, c),
        charset.no_duplicates(),
        block_meaning(kind + d, ctx, s).0 is Text,
        block_meaning(kind + d, ctx, s).1 == state_after(s, n),
        ({
            let text = block_meaning(kind + d, ctx, s).0->Text_0;
            &&& text.len() == n
            &&& forall|i: int|
                0 <= i < n ==> is_of_kind(kind, #[trigger] text[i]) && text[i] == charset[draw(
                    state_after(s, i as nat),
                ) as int % charset.len() as int]
        }),
{
    assert forall|i: int| 0 <= i < d.len() implies is_digit(#[trigger] d[i]) by {}
    lemma_request(kind, d, n as int);
    let charset = (random_text_request(kind + d)->0).0;
    reveal(block_meaning);
    lemma_picked(charset, n, s);
    let text = random_chars(s, encode_utf8(charset), n);
    assert forall|i: int| 0 <= i < n implies is_of_kind(kind, #[trigger] text[i]) && text[i]
        == charset[draw(state_after(s, i as nat)) as int % charset.len() as int] by {
        let k = draw(state_after(s, i as nat)) as int % charset.len() as int;
        assert(0 <= k < charset.len());
        assert(is_of_kind(kind, charset[k]));
    }
    assert forall|c: char| #[trigger] charset.contains(c) <==> is_of_kind(kind, c) by {
        if charset.contains(c) {
            let i = choose|i: int| 0 <= i < charset.len() && charset[i] == c;
            assert(is_of_kind(kind, charset[i]));
        }
    }
    charset
}

/// The characters that draws pick out of a set.
proof fn lemma_picked(charset: Seq<char>, n: nat, s: u64)
    requires
        charset.len() > 0,
        is_ascii_chars(charset),
    ensures
        random_chars(s, encode_utf8(charset), n).len() == n,
        forall|i: int|
            0 <= i < n ==> #[trigger] random_chars(s, encode_utf8(charset), n)[i] == charset[draw(
                state_after(s, i as nat),
            ) as int % charset.len() as int],
    decreases n,
{
    is_ascii_chars_encode_utf8(charset);
    if n > 0 {
        let k = (n - 1) as nat;
        lemma_picked(charset, k, s);
        let bytes = encode_utf8(charset);
        let pick = draw(state_after(s, k)) as int % charset.len() as int;
        assert(0 <= pick < charset.len());
        assert(charset[pick] as u8 == bytes[pick]);
        assert(bytes[pick] as char == charset[pick]);
        let all = random_chars(s, bytes, n);
        let before = random_chars(s, bytes, k);
        assert forall|i: int| 0 <= i < n implies #[trigger] all[i] == charset[draw(
            state_after(s, i as nat),
        ) as int % charset.len() as int] by {
            if i < k {
                assert(all[i] == before[i]);
            }
        }
    }
}

/// The names of the properties of a box are told apart.
proof fn lemma_properties()
    ensures
        "box_color_rgb_hex_upper"@.len() == 23,
        "box_color_rgb_hex_upper"@[0] == 'b',
        "box_color_rgb_hex_lower"@.len() == 23,
        "box_color_rgb_hex_lower"@[0] == 'b',
        "box_color_rgb"@.len() == 13,
        "box_color_rgb"@[0] == 'b',
        "box_color_r_hex_upper"@.len() == 21,
        "box_color_r_hex_upper"@[0] == 'b',
        "box_color_g_hex_upper"@.len() == 21,
        "box_color_g_hex_upper"@[0] == 'b',
        "box_color_b_hex_upper"@.len() == 21,
        "box_color_b_hex_upper"@[0] == 'b',
        "box_color_r_hex_lower"@.len() == 21,
        "box_color_r_hex_lower"@[0] == 'b',
        "box_color_g_hex_lower"@.len() == 21,
        "box_color_g_hex_lower"@[0] == 'b',
        "box_color_b_hex_lower"@.len() == 21,
        "box_color_b_hex_lower"@[0] == 'b',
        "box_color_r"@.len() == 11,
        "box_color_r"@[0] == 'b',
        "box_color_g"@.len() == 11,
        "box_color_g"@[0] == 'b',
        "box_color_b"@.len() == 11,
        "box_color_b"@[0] == 'b',
        "box_pixel_count"@.len() == 15,
        "box_pixel_count"@[0] == 'b',
        "box_id"@.len() == 6,
        "box_id"@[0] == 'b',
        "box_color_rgb_hex_upper"@ != "box_color_rgb_hex_lower"@,
        "box_color_r_hex_upper"@ != "box_color_g_hex_upper"@,
        "box_color_r_hex_upper"@ != "box_color_b_hex_upper"@,
        "box_color_r_hex_upper"@ != "box_color_r_hex_lower"@,
        "box_color_r_hex_upper"@ != "box_color_g_hex_lower"@,
        "box_color_r_hex_upper"@ != "box_color_b_hex_lower"@,
        "box_color_g_hex_upper"@ != "box_color_b_hex_upper"@,
        "box_color_g_hex_upper"@ != "box_color_r_hex_lower"@,
        "box_color_g_hex_upper"@ != "box_color_g_hex_lower"@,
        "box_color_g_hex_upper"@ != "box_color_b_hex_lower"@,
        "box_color_b_hex_upper"@ != "box_color_r_hex_lower"@,
        "box_color_b_hex_upper"@ != "box_color_g_hex_lower"@,
        "box_color_b_hex_upper"@ != "box_color_b_hex_lower"@,
        "box_color_r_hex_lower"@ != "box_color_g_hex_lower"@,
        "box_color_r_hex_lower"@ != "box_color_b_hex_lower"@,
        "box_color_g_hex_lower"@ != "box_color_b_hex_lower"@,
        "box_color_r"@ != "box_color_g"@,
        "box_color_r"@ != "box_color_b"@,
        "box_color_g"@ != "box_color_b"@,
{
    reveal_strlit("box_color_rgb_hex_upper");
    reveal_strlit("box_color_rgb_hex_lower");
    reveal_strlit("box_color_rgb");
    reveal_strlit("box_color_r_hex_upper");
    reveal_strlit("box_color_g_hex_upper");
    reveal_strlit("box_color_b_hex_upper");
    reveal_strlit("box_color_r_hex_lower");
    reveal_strlit("box_color_g_hex_lower");
    reveal_strlit("box_color_b_hex_lower");
    reveal_strlit("box_color_r");
    reveal_strlit("box_color_g");
    reveal_strlit("box_color_b");
    reveal_strlit("box_pixel_count");
    reveal_strlit("box_id");
    assert("box_color_rgb_hex_upper"@[18] != "box_color_rgb_hex_lower"@[18]);
    assert("box_color_r_hex_upper"@[10] != "box_color_g_hex_upper"@[10]);
    assert("box_color_r_hex_upper"@[10] != "box_color_b_hex_upper"@[10]);
    assert("box_color_r_hex_upper"@[16] != "box_color_r_hex_lower"@[16]);
    assert("box_color_r_hex_upper"@[10] != "box_color_g_hex_lower"@[10]);
    assert("box_color_r_hex_upper"@[10] != "box_color_b_hex_lower"@[10]);
    assert("box_color_g_hex_upper"@[10] != "box_color_b_hex_upper"@[10]);
    assert("box_color_g_hex_upper"@[10] != "box_color_r_hex_lower"@[10]);
    assert("box_color_g_hex_upper"@[16] != "box_color_g_hex_lower"@[16]);
    assert("box_color_g_hex_upper"@[10] != "box_color_b_hex_lower"@[10]);
    assert("box_color_b_hex_upper"@[10] != "box_color_r_hex_lower"@[10]);
    assert("box_color_b_hex_upper"@[10] != "box_color_g_hex_lower"@[10]);
    assert("box_color_b_hex_upper"@[16] != "box_color_b_hex_lower"@[16]);
    assert("box_color_r_hex_lower"@[10] != "box_color_g_hex_lower"@[10]);
    assert("box_color_r_hex_lower"@[10] != "box_color_b_hex_lower"@[10]);
    assert("box_color_g_hex_lower"@[10] != "box_color_b_hex_lower"@[10]);
    assert("box_color_r"@[10] != "box_color_g"@[10]);
    assert("box_color_r"@[10] != "box_color_b"@[10]);
    assert("box_color_g"@[10] != "box_color_b"@[10]);
}

/// A block with the name of a property shows that property.
proof fn lemma_property_shown(name: Seq<char>, ctx: BoxContext, s: u64, k: int)
    requires
        name.len() > 0,
        name[0] == 'b',
        0 <= k < 18,
        k < name.len() ==> name[k] != "box_pixel_percent_"@[k],
        property_text(name, ctx) is Some,
    ensures
        block_meaning(name, ctx, s) == (Meaning::Text(property_text(name, ctx)->0), s),
{
    lemma_not_random(name, s);
    lemma_not_percent(name, k);
    reveal(block_meaning);
}

/// What the names of the colours show: each component as it is, or as two
/// hexadecimal digits in either case, and all three together, red first, then
/// green, then blue. In decimal they are padded and have commas between them.
pub proof fn law_colours_show_their_components(ctx: BoxContext, s: u64)
    ensures
        block_meaning("box_color_r"@, ctx, s) == (Meaning::Text(int_text(ctx.r as int)), s),
        block_meaning("box_color_g"@, ctx, s) == (Meaning::Text(int_text(ctx.g as int)), s),
        block_meaning("box_color_b"@, ctx, s) == (Meaning::Text(int_text(ctx.b as int)), s),
        block_meaning("box_pixel_count"@, ctx, s) == (
            Meaning::Text(int_text(ctx.pixels as int)),
            s,
        ),
        block_meaning("box_id"@, ctx, s) == (Meaning::Text(int_text(ctx.id as int)), s),
        block_meaning("box_color_r_hex_upper"@, ctx, s) == (
            Meaning::Text(hex_text(ctx.r, true)),
            s,
        ),
        block_meaning("box_color_g_hex_upper"@, ctx, s) == (
            Meaning::Text(hex_text(ctx.g, true)),
            s,
        ),
        block_meaning("box_color_b_hex_upper"@, ctx, s) == (
            Meaning::Text(hex_text(ctx.b, true)),
            s,
        ),
        block_meaning("box_color_r_hex_lower"@, ctx, s) == (
            Meaning::Text(hex_text(ctx.r, false)),
            s,
        ),
        block_meaning("box_color_g_hex_lower"@, ctx, s) == (
            Meaning::Text(hex_text(ctx.g, false)),
            s,
        ),
        block_meaning("box_color_b_hex_lower"@, ctx, s) == (
            Meaning::Text(hex_text(ctx.b, false)),
            s,
        ),
        block_meaning("box_color_rgb_hex_upper"@, ctx, s) == (
            Meaning::Text(hex_text(ctx.r, true) + hex_text(ctx.g, true) + hex_text(ctx.b, true)),
            s,
        ),
        block_meaning("box_color_rgb_hex_lower"@, ctx, s) == (
            Meaning::Text(hex_text(ctx.r, false) + hex_text(ctx.g, false) + hex_text(ctx.b, false)),
            s,
        ),
        block_meaning("box_color_rgb"@, ctx, s) == (
            Meaning::Text(
                padded_text(ctx.r) + seq![','] + padded_text(ctx.g) + seq![','] + padded_text(ctx.b),
            ),
            s,
        ),
{
    lemma_properties();
    reveal_strlit("box_pixel_percent_");
    reveal_strlit("box_color_rgb_hex_upper");
    lemma_property_shown("box_color_rgb_hex_upper"@, ctx, s, 4);
    reveal_strlit("box_color_rgb_hex_lower");
    lemma_property_shown("box_color_rgb_hex_lower"@, ctx, s, 4);
    reveal_strlit("box_color_rgb");
    lemma_property_shown("box_color_rgb"@, ctx, s, 4);
    reveal_strlit("box_color_r_hex_upper");
    lemma_property_shown("box_color_r_hex_upper"@, ctx, s, 4);
    reveal_strlit("box_color_g_hex_upper");
    lemma_property_shown("box_color_g_hex_upper"@, ctx, s, 4);
    reveal_strlit("box_color_b_hex_upper");
    lemma_property_shown("box_color_b_hex_upper"@, ctx, s, 4);
    reveal_strlit("box_color_r_hex_lower");
    lemma_property_shown("box_color_r_hex_lower"@, ctx, s, 4);
    reveal_strlit("box_color_g_hex_lower");
    lemma_property_shown("box_color_g_hex_lower"@, ctx, s, 4);
    reveal_strlit("box_color_b_hex_lower");
    lemma_property_shown("box_color_b_hex_lower"@, ctx, s, 4);
    reveal_strlit("box_color_r");
    lemma_property_shown("box_color_r"@, ctx, s, 4);
    reveal_strlit("box_color_g");
    lemma_property_shown("box_color_g"@, ctx, s, 4);
    reveal_strlit("box_color_b");
    lemma_property_shown("box_color_b"@, ctx, s, 4);
    reveal_strlit("box_pixel_count");
    lemma_property_shown("box_pixel_count"@, ctx, s, 10);
    reveal_strlit("box_id");
    lemma_property_shown("box_id"@, ctx, s, 4);
}

/// The names of the place and the size of a box show the first column, the first
/// row, the width and the height.
#[verifier::spinoff_prover]
#[verifier::rlimit(40)]
pub proof fn law_place_and_size_are_shown(ctx: BoxContext, s: u64)
    requires
        is_small(ctx.x as int),
        is_small(ctx.y as int),
        is_small(ctx.w as int),
        is_small(ctx.h as int),
    ensures
        shows_number("box_x_position"@, ctx, s, ctx.x as int),
        shows_number("box_y_position"@, ctx, s, ctx.y as int),
        shows_number("box_width"@, ctx, s, ctx.w as int),
        shows_number("box_height"@, ctx, s, ctx.h as int),
{
    law_names_stand_for_the_box(ctx);
    lemma_properties();
    reveal_strlit("box_pixel_percent_");
    reveal_strlit("box_x_position");
    reveal_strlit("box_y_position");
    reveal_strlit("box_width");
    reveal_strlit("box_height");
    lemma_not_random("box_x_position"@, s);
    lemma_not_random("box_y_position"@, s);
    lemma_not_random("box_width"@, s);
    lemma_not_random("box_height"@, s);
    lemma_not_percent("box_x_position"@, 4);
    lemma_not_percent("box_y_position"@, 4);
    lemma_not_percent("box_width"@, 4);
    lemma_not_percent("box_height"@, 4);
    reveal(block_meaning);
}

/// A block for the share of the frame asks for as many decimals as it names, up
/// to five.
pub proof fn law_share_has_its_decimals(d: Seq<char>, n: int, ctx: BoxContext, s: u64)
    requires
        d.len() > 0,
        forall|i: int| 0 <= i < d.len() ==> '0' <= #[trigger] d[i] <= '9',
        int_of(d) == Some(n),
        n <= i64::MAX,
    ensures
        n <= 5 ==> block_meaning("box_pixel_percent_"@ + d, ctx, s) == (Meaning::Percent(n), s),
        n > 5 ==> !(block_meaning("box_pixel_percent_"@ + d, ctx, s).0 is Percent),
{
    let inner = "box_pixel_percent_"@ + d;
    reveal_strlit("box_pixel_percent_");
    assert(inner[0] == 'b');
    lemma_not_random(inner, s);
    assert(inner.subrange(0, 18) =~= "box_pixel_percent_"@);
    assert(after(inner, 18) =~= d);
    assert(is_digit(d[0]));
    assert(n >= 0);
    reveal(block_meaning);
}

/// A text with one comma has two parts.
proof fn lemma_two_parts(a: Seq<char>, b: Seq<char>)
    requires
        !a.contains(','),
        !b.contains(','),
    ensures
        split_at_char(a + seq![','] + b, ',') == seq![a, b],
{
    let t = a + seq![','] + b;
    let n = a.len() as int;
    assert forall|i: int| 0 <= i < n implies #[trigger] t[i] != ',' by {
        assert(a.contains(a[i]));
    }
    lemma_position_is(t, 0, n);
    assert(t.subrange(0, n) =~= a);
    assert(after(t, n + 1) =~= b);
    assert forall|i: int| 0 <= i < b.len() implies #[trigger] b[i] != ',' by {
        assert(b.contains(b[i]));
    }
    lemma_position_is(b, 0, b.len() as int);
    assert(split_at_char(b, ',') == seq![b]);
    assert(seq![a] + seq![b] =~= seq![a, b]);
}

proof fn lemma_position_is(t: Seq<char>, i: int, k: int)
    requires
        0 <= i <= k <= t.len(),
        forall|n: int| i <= n < k ==> #[trigger] t[n] != ',',
        k < t.len() ==> t[k] == ',',
    ensures
        position(t, ',', i) == k,
    decreases k - i,
{
    if i < k {
        lemma_position_is(t, i + 1, k);
    }
}

/// A block that goes on behind `random_` with none of the letters that random
/// text begins with asks for no random text.
proof fn lemma_no_text_request(inner: Seq<char>)
    requires
        inner.len() > 7,
        inner[7] != 'a' && inner[7] != 's' && inner[7] != 'h',
    ensures
        random_text_request(inner) is None,
{
    reveal_strlit("random_alphanumeric_upper_");
    lemma_differs(inner, "random_alphanumeric_upper_"@, 7);
    reveal_strlit("random_alphanumeric_lower_");
    lemma_differs(inner, "random_alphanumeric_lower_"@, 7);
    reveal_strlit("random_alphanumeric_");
    lemma_differs(inner, "random_alphanumeric_"@, 7);
    reveal_strlit("random_alphabet_upper_");
    lemma_differs(inner, "random_alphabet_upper_"@, 7);
    reveal_strlit("random_alphabet_lower_");
    lemma_differs(inner, "random_alphabet_lower_"@, 7);
    reveal_strlit("random_alphabet_");
    lemma_differs(inner, "random_alphabet_"@, 7);
    reveal_strlit("random_special_");
    lemma_differs(inner, "random_special_"@, 7);
    reveal_strlit("random_hex_");
    lemma_differs(inner, "random_hex_"@, 7);
    reveal_strlit("random_string_");
    lemma_differs(inner, "random_string_"@, 7);
}

/// A random whole number lies between the two that the block names, the first
/// one included and the second one not; where there is none, the first is shown
/// and nothing is drawn.
pub proof fn law_random_int_lies_between(
    a: Seq<char>,
    b: Seq<char>,
    lo: int,
    hi: int,
    ctx: BoxContext,
    s: u64,
) -> (v: int)
    requires
        !a.contains(','),
        !b.contains(','),
        i64_of(a) == Some(lo),
        i64_of(b) == Some(hi),
    ensures
        block_meaning("random_int_"@ + (a + seq![','] + b), ctx, s) == (
            Meaning::Text(int_text(v)),
            if lo < hi {
                next_state(s)
            } else {
                s
            },
        ),
        lo < hi ==> lo <= v < hi && (draw(s) - (v - lo)) % (hi - lo) == 0,
        lo >= hi ==> v == lo,
{
    let rest = a + seq![','] + b;
    let inner = "random_int_"@ + rest;
    reveal_strlit("random_int_");
    reveal_strlit("random_choice_");
    reveal_strlit("random_float_");
    assert(inner[7] == 'i');
    lemma_no_text_request(inner);
    lemma_differs(inner, "random_choice_"@, 7);
    lemma_differs(inner, "random_float_"@, 7);
    assert(inner.subrange(0, 11) =~= "random_int_"@);
    assert(after(inner, 11) =~= rest);
    lemma_two_parts(a, b);
    reveal(block_meaning);
    if lo < hi {
        crate::rng::law_range_draw_in_range(s, lo, hi);
        crate::rng::law_range_draw_moves_with_the_range(s, lo, hi, 0);
    }
    range_draw(s, lo, hi)
}

/// A choice between two shows the one or the other, as a draw tells.
pub proof fn law_choice_shows_one_or_the_other(
    a: Seq<char>,
    b: Seq<char>,
    ctx: BoxContext,
    s: u64,
)
    requires
        !a.contains(','),
        !b.contains(','),
    ensures
        block_meaning("random_choice_"@ + (a + seq![','] + b), ctx, s) == (
            Meaning::Text(
                if draw(s) % 2 == 0 {
                    a
                } else {
                    b
                },
            ),
            next_state(s),
        ),
{
    let rest = a + seq![','] + b;
    let inner = "random_choice_"@ + rest;
    reveal_strlit("random_choice_");
    assert(inner[7] == 'c');
    lemma_no_text_request(inner);
    assert(inner.subrange(0, 14) =~= "random_choice_"@);
    assert(after(inner, 14) =~= rest);
    lemma_two_parts(a, b);
    reveal(block_meaning);
}

/// The text is one of the pieces of `whole` between commas.
pub open spec fn is_piece(whole: Seq<char>, piece: Seq<char>, i: int, j: int) -> bool {
    &&& 0 <= i <= j <= whole.len()
    &&& piece == whole.subrange(i, j)
    &&& !piece.contains(',')
    &&& i == 0 || whole[i - 1] == ','
    &&& j == whole.len() || whole[j] == ','
}

proof fn lemma_pieces(whole: Seq<char>, k: int) -> (r: (int, int))
    requires
        0 <= k < split_at_char(whole, ',').len(),
    ensures
        is_piece(whole, split_at_char(whole, ',')[k], r.0, r.1),
    decreases whole.len(),
{
    let parts = split_at_char(whole, ',');
    let n = position(whole, ',', 0);
    super::chars::lemma_position(whole, ',', 0);
    if n < whole.len() {
        if k == 0 {
            assert(parts[0] == whole.subrange(0, n));
            (0, n)
        } else {
            let rest = after(whole, n + 1);
            let (i, j) = lemma_pieces(rest, k - 1);
            assert(parts[k] == split_at_char(rest, ',')[k - 1]);
            assert(whole.subrange(i + n + 1, j + n + 1) =~= rest.subrange(i, j));
            if i > 0 {
                assert(rest[i - 1] == whole[i + n]);
            }
            if j < rest.len() {
                assert(rest[j] == whole[j + n + 1]);
            }
            (i + n + 1, j + n + 1)
        }
    } else {
        assert(whole.subrange(0, whole.len() as int) =~= whole);
        (0, whole.len() as int)
    }
}

/// A choice shows one of the pieces between the commas.
pub proof fn law_choice_shows_a_piece(rest: Seq<char>, ctx: BoxContext, s: u64) -> (r: (int, int))
    ensures
        block_meaning("random_choice_"@ + rest, ctx, s).0 is Text,
        block_meaning("random_choice_"@ + rest, ctx, s).1 == next_state(s),
        is_piece(rest, block_meaning("random_choice_"@ + rest, ctx, s).0->Text_0, r.0, r.1),
{
    let inner = "random_choice_"@ + rest;
    reveal_strlit("random_choice_");
    assert(inner[7] == 'c');
    lemma_no_text_request(inner);
    assert(inner.subrange(0, 14) =~= "random_choice_"@);
    assert(after(inner, 14) =~= rest);
    reveal(block_meaning);
    let parts = split_at_char(rest, ',');
    assert(parts.len() > 0);
    let k = index_draw(s, parts.len());
    vstd::arithmetic::div_mod::lemma_mod_bound(draw(s) as int, parts.len() as int);
    lemma_pieces(rest, k)
}

/// A random truth value is true for every odd number drawn and false for every
/// even one.
pub proof fn law_random_bool_is_true_or_false(ctx: BoxContext, s: u64)
    ensures
        block_meaning("random_bool"@, ctx, s) == (
            Meaning::Text(
                if draw(s) % 2 == 1 {
                    "True"@
                } else {
                    "False"@
                },
            ),
            next_state(s),
        ),
{
    let inner = "random_bool"@;
    reveal_strlit("random_bool");
    reveal_strlit("random_choice_");
    reveal_strlit("random_float_");
    reveal_strlit("random_int_");
    lemma_no_text_request(inner);
    lemma_differs(inner, "random_choice_"@, 7);
    lemma_differs(inner, "random_float_"@, 7);
    lemma_differs(inner, "random_int_"@, 7);
    reveal(block_meaning);
}

/// A random real number is asked for between the two numbers that the block
/// names, in their order.
pub proof fn law_random_real_is_asked_for(
    a: Seq<char>,
    b: Seq<char>,
    ctx: BoxContext,
    s: u64,
)
    requires
        !a.contains(','),
        !b.contains(','),
        is_real(a),
        is_real(b),
    ensures
        block_meaning("random_float_"@ + (a + seq![','] + b), ctx, s) == (
            Meaning::RandomReal(a, b),
            s,
        ),
{
    let rest = a + seq![','] + b;
    let inner = "random_float_"@ + rest;
    reveal_strlit("random_float_");
    reveal_strlit("random_choice_");
    assert(inner[7] == 'f');
    lemma_no_text_request(inner);
    lemma_differs(inner, "random_choice_"@, 7);
    assert(inner.subrange(0, 13) =~= "random_float_"@);
    assert(after(inner, 13) =~= rest);
    lemma_two_parts(a, b);
    reveal(block_meaning);
}

/// Digits end where something else begins.
proof fn lemma_digits_end(s: Seq<char>, i: int, k: int)
    requires
        0 <= i <= k <= s.len(),
        forall|n: int| i <= n < k ==> is_digit(#[trigger] s[n]),
        k < s.len() ==> !is_digit(s[k]),
    ensures
        super::formula::skip_digits(s, i) == k,
    decreases k - i,
{
    if i < k {
        lemma_digits_end(s, i + 1, k);
    }
}

/// What counts as a real number: digits, with a point between, before or behind
/// them, with an exponent behind a mark, which may have a sign; and any of these
/// behind a sign.
pub proof fn law_digits_and_points_are_real(a: Seq<char>, b: Seq<char>)
    requires
        a.len() > 0,
        b.len() > 0,
        forall|i: int| 0 <= i < a.len() ==> '0' <= #[trigger] a[i] <= '9',
        forall|i: int| 0 <= i < b.len() ==> '0' <= #[trigger] b[i] <= '9',
    ensures
        is_real(a),
        is_real(a + seq!['.'] + b),
        is_real(a + seq!['.']),
        is_real(seq!['.'] + b),
        is_real(a + seq!['e'] + b),
        is_real(a + seq!['E', '-'] + b),
        is_real(seq!['-'] + a),
        is_real(seq!['+'] + a),
        !is_real(Seq::empty()),
        !is_real(seq!['.']),
        !is_real(a + seq!['e']),
        !is_real(seq!['-']),
{
    lemma_real_whole(a);
    lemma_real_pointed(a, b);
    lemma_real_raised(a, b);
    assert((seq!['-'] + a).drop_first() =~= a);
    assert((seq!['+'] + a).drop_first() =~= a);
    lemma_no_reals(a);
}

proof fn lemma_real_whole(a: Seq<char>)
    requires
        a.len() > 0,
        forall|i: int| 0 <= i < a.len() ==> '0' <= #[trigger] a[i] <= '9',
    ensures
        super::formula::is_unsigned_real(a),
        a[0] != '-' && a[0] != '+',
{
    assert forall|i: int| 0 <= i < a.len() implies is_digit(#[trigger] a[i]) by {}
    lemma_digits_end(a, 0, a.len() as int);
    assert(is_digit(a[0]));
}

proof fn lemma_real_pointed(a: Seq<char>, b: Seq<char>)
    requires
        a.len() > 0,
        b.len() > 0,
        forall|i: int| 0 <= i < a.len() ==> '0' <= #[trigger] a[i] <= '9',
        forall|i: int| 0 <= i < b.len() ==> '0' <= #[trigger] b[i] <= '9',
    ensures
        is_real(a + seq!['.'] + b),
        is_real(a + seq!['.']),
        is_real(seq!['.'] + b),
{
    let (m, n) = (a.len() as int, b.len() as int);
    let t = a + seq!['.'] + b;
    assert forall|i: int| 0 <= i < m implies is_digit(#[trigger] t[i]) by {
        assert(t[i] == a[i]);
    }
    assert forall|i: int| m + 1 <= i < t.len() implies is_digit(#[trigger] t[i]) by {
        assert(t[i] == b[i - m - 1]);
    }
    assert(t[m] == '.');
    lemma_digits_end(t, 0, m);
    lemma_digits_end(t, m + 1, t.len() as int);
    assert(is_digit(t[0]));
    let u = a + seq!['.'];
    assert forall|i: int| 0 <= i < m implies is_digit(#[trigger] u[i]) by {
        assert(u[i] == a[i]);
    }
    assert(u[m] == '.');
    lemma_digits_end(u, 0, m);
    lemma_digits_end(u, m + 1, u.len() as int);
    assert(is_digit(u[0]));
    let v = seq!['.'] + b;
    assert forall|i: int| 1 <= i < v.len() implies is_digit(#[trigger] v[i]) by {
        assert(v[i] == b[i - 1]);
    }
    assert(v[0] == '.');
    lemma_digits_end(v, 0, 0);
    lemma_digits_end(v, 1, v.len() as int);
}

proof fn lemma_real_raised(a: Seq<char>, b: Seq<char>)
    requires
        a.len() > 0,
        b.len() > 0,
        forall|i: int| 0 <= i < a.len() ==> '0' <= #[trigger] a[i] <= '9',
        forall|i: int| 0 <= i < b.len() ==> '0' <= #[trigger] b[i] <= '9',
    ensures
        is_real(a + seq!['e'] + b),
        is_real(a + seq!['E', '-'] + b),
{
    let m = a.len() as int;
    let t = a + seq!['e'] + b;
    assert forall|i: int| 0 <= i < m implies is_digit(#[trigger] t[i]) by {
        assert(t[i] == a[i]);
    }
    assert forall|i: int| m + 1 <= i < t.len() implies is_digit(#[trigger] t[i]) by {
        assert(t[i] == b[i - m - 1]);
    }
    assert(t[m] == 'e');
    assert(is_digit(t[m + 1]));
    lemma_digits_end(t, 0, m);
    lemma_digits_end(t, m + 1, t.len() as int);
    assert(is_digit(t[0]));
    let u = a + seq!['E', '-'] + b;
    assert forall|i: int| 0 <= i < m implies is_digit(#[trigger] u[i]) by {
        assert(u[i] == a[i]);
    }
    assert forall|i: int| m + 2 <= i < u.len() implies is_digit(#[trigger] u[i]) by {
        assert(u[i] == b[i - m - 2]);
    }
    assert(u[m] == 'E' && u[m + 1] == '-');
    lemma_digits_end(u, 0, m);
    lemma_digits_end(u, m + 2, u.len() as int);
    assert(is_digit(u[0]));
}

proof fn lemma_no_reals(a: Seq<char>)
    requires
        a.len() > 0,
        forall|i: int| 0 <= i < a.len() ==> '0' <= #[trigger] a[i] <= '9',
    ensures
        !is_real(Seq::empty()),
        !is_real(seq!['.']),
        !is_real(a + seq!['e']),
        !is_real(seq!['-']),
{
    reveal_strlit("inf");
    reveal_strlit("infinity");
    reveal_strlit("nan");
    let none = Seq::<char>::empty();
    assert(none.map_values(|c: char| super::eval::lower(c)).len() == 0);
    lemma_digits_end(none, 0, 0);
    let point = seq!['.'];
    assert(point.map_values(|c: char| super::eval::lower(c)).len() == 1);
    lemma_digits_end(point, 0, 0);
    lemma_digits_end(point, 1, 1);
    let m = a.len() as int;
    let t = a + seq!['e'];
    assert forall|i: int| 0 <= i < m implies is_digit(#[trigger] t[i]) by {
        assert(t[i] == a[i]);
    }
    assert(t[m] == 'e');
    lemma_digits_end(t, 0, m);
    lemma_digits_end(t, m + 1, m + 1);
    let low = t.map_values(|c: char| super::eval::lower(c));
    assert(is_digit(t[0]));
    assert(low[0] == t[0]);
    assert(low[0] != 'i' && low[0] != 'n');
    assert(seq!['-'].drop_first() =~= none);
}

/// Infinities and what is no number are named by their letters, in either case,
/// with or without a sign.
pub proof fn law_infinity_and_nan_are_real(s: Seq<char>, sign: char)
    requires
        s.len() == 3,
        sign == '-' || sign == '+',
        ({
            ||| (s[0] == 'i' || s[0] == 'I') && (s[1] == 'n' || s[1] == 'N') && (s[2] == 'f' || s[2]
                == 'F')
            ||| (s[0] == 'n' || s[0] == 'N') && (s[1] == 'a' || s[1] == 'A') && (s[2] == 'n' || s[2]
                == 'N')
        }),
    ensures
        is_real(s),
        is_real(seq![sign] + s),
{
    reveal_strlit("inf");
    reveal_strlit("nan");
    let low = s.map_values(|c: char| super::eval::lower(c));
    assert(low =~= "inf"@ || low =~= "nan"@);
    assert((seq![sign] + s).drop_first() =~= s);
}

/// A word that is no name of the box means nothing.
pub proof fn law_unknown_word_means_nothing(word: Seq<char>, ctx: BoxContext, s: u64)
    requires
        0 < word.len() <= usize::MAX,
        forall|i: int|
            0 <= i < word.len() ==> ({
                let c = #[trigger] word[i];
                'a' <= c <= 'z' || 'A' <= c <= 'Z' || '0' <= c <= '9' || c == '_'
            }),
        'a' <= word[0] <= 'z' || 'A' <= word[0] <= 'Z',
        word[0] != 'b' && word[0] != 'r',
    ensures
        block_meaning(word, ctx, s) == (Meaning::Nothing, s),
{
    super::laws::lemma_formula_block(word, ctx, s);
    let n = word.len() as int;
    assert forall|i: int| 0 <= i < n implies super::formula::is_name_char(#[trigger] word[i]) by {}
    super::grammar::lemma_name_reaches(word, 0, n);
    assert(word.subrange(0, n) =~= word);
    lemma_no_name(word);
    assert(super::formula::is_letter(word[0]));
    assert(super::formula::skip_spaces(word, 0) == 0);
    assert(super::formula::atom_at(word, 0) is None);
    assert(super::formula::factor_at(word, 0) is None);
    assert(super::formula::term_at(word, 0) is None);
    assert(super::formula::formula_at(word, 0) is None);
}

/// Every name of a box begins with a `b`.
proof fn lemma_no_name(word: Seq<char>)
    requires
        word.len() > 0,
        word[0] != 'b',
    ensures
        super::formula::variable_named(word) is None,
{
    reveal_strlit("box_x_position");
    reveal_strlit("box_y_position");
    reveal_strlit("box_width");
    reveal_strlit("box_height");
    reveal_strlit("box_color_r");
    reveal_strlit("box_color_g");
    reveal_strlit("box_color_b");
    reveal_strlit("box_pixel_count");
    reveal_strlit("box_id");
}

} // verus!
