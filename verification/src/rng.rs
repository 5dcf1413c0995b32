//! A deterministic pseudo-random number generator.
use vstd::prelude::*;
use vstd::string::StringSliceAdditionalSpecFns;

verus! {

/// `String::push` appends the character to the end of the string.
pub assume_specification[ String::push ](s: &mut String, c: char)
    ensures
        final(s)@ == old(s)@.push(c),
;

/// A generator of the xorshift64* family. Its view is its state.
pub struct Rng(u64);

impl View for Rng {
    type V = u64;

    closed spec fn view(&self) -> u64 {
        self.0
    }
}

/// The multiplier that scrambles a state into an output.
pub const SCRAMBLE: u64 = 0x2545F4914F6CDD1D;

/// The state that follows `s`.
pub open spec fn next_state(s: u64) -> u64 {
    let a = s ^ (s >> 12);
    let b = a ^ (a << 25);
    b ^ (b >> 27)
}

/// The number drawn in state `s`: the upper half of the scrambled next state.
pub open spec fn draw(s: u64) -> u32 {
    (next_state(s).wrapping_mul(SCRAMBLE) >> 32) as u32
}

/// The state `n` draws after `s`.
pub open spec fn state_after(s: u64, n: nat) -> u64
    decreases n,
{
    if n == 0 {
        s
    } else {
        next_state(state_after(s, (n - 1) as nat))
    }
}

/// The state of a generator seeded with `seed`.
pub open spec fn seeded(seed: u64) -> u64 {
    if seed == 0 {
        1
    } else {
        seed
    }
}

/// The number that a draw in state `s` picks from `lo` up to `hi`, or `lo` if
/// there is none.
pub open spec fn range_draw(s: u64, lo: int, hi: int) -> int {
    if hi <= lo {
        lo
    } else {
        lo + draw(s) as int % (hi - lo)
    }
}

/// The index that a draw in state `s` picks out of `n`.
pub open spec fn index_draw(s: u64, n: nat) -> int {
    draw(s) as int % n as int
}

/// The characters that `n` draws from state `s` on pick out of `charset`, each
/// the character with the number of the byte picked.
pub open spec fn random_chars(s: u64, charset: Seq<u8>, n: nat) -> Seq<char>
    decreases n,
{
    if n == 0 {
        Seq::empty()
    } else {
        let k = (n - 1) as nat;
        random_chars(s, charset, k).push(
            charset[index_draw(state_after(s, k), charset.len())] as char,
        )
    }
}

impl Rng {
    /// A generator for `seed`. The seed 0 counts as 1.
    pub fn new(seed: u64) -> (rng: Self)
        ensures
            rng@ == seeded(seed),
    {
        if seed == 0 {
            Rng(1)
        } else {
            Rng(seed)
        }
    }

    /// Draws a number.
    pub fn next_u32(&mut self) -> (r: u32)
        ensures
            r == draw(old(self)@),
            final(self)@ == next_state(old(self)@),
    {
        let mut x = self.0;
        x = x ^ (x >> 12);
        x = x ^ (x << 25);
        x = x ^ (x >> 27);
        self.0 = x;
        (x.wrapping_mul(SCRAMBLE) >> 32) as u32
    }

    /// Draws a number from `lo` up to `hi`, `hi` excluded. Without a number in
    /// between, returns `lo` and draws nothing.
    pub fn next_range(&mut self, lo: i64, hi: i64) -> (r: i64)
        ensures
            r == range_draw(old(self)@, lo as int, hi as int),
            final(self)@ == if hi <= lo {
                old(self)@
            } else {
                next_state(old(self)@)
            },
    {
        if hi <= lo {
            return lo;
        }
        let span = (hi as i128 - lo as i128) as u64;
        let offset = self.next_u32() as u64 % span;
        (lo as i128 + offset as i128) as i64
    }

    /// Draws one of the options.
    pub fn choice<T: Clone>(&mut self, options: &[T]) -> (r: T)
        requires
            options@.len() > 0,
        ensures
            cloned(options@[index_draw(old(self)@, options@.len())], r),
            final(self)@ == next_state(old(self)@),
    {
        let i = self.next_u32() as usize % options.len();
        options[i].clone()
    }

    /// Draws `len` bytes of `charset` and returns the characters with their
    /// numbers.
    pub fn random_from(&mut self, charset: &str, len: usize) -> (out: String)
        requires
            len > 0 ==> charset@.len() > 0,
        ensures
            out@ == random_chars(old(self)@, charset.spec_bytes(), len as nat),
            final(self)@ == state_after(old(self)@, len as nat),
    {
        let bytes = charset.as_bytes();
        let ghost s = self@;
        let mut out = String::new();
        let mut i: usize = 0;
        proof {
            if charset@.len() > 0 {
                lemma_bytes_nonempty(charset@);
            }
        }
        while i < len
            invariant
                i <= len,
                bytes@ == charset.spec_bytes(),
                len > 0 ==> bytes@.len() > 0,
                out@ == random_chars(s, bytes@, i as nat),
                self@ == state_after(s, i as nat),
            decreases len - i,
        {
            let k = self.next_u32() as usize % bytes.len();
            out.push(bytes[k] as char);
            i = i + 1;
        }
        out
    }
}

/// A text that is not empty has bytes.
pub proof fn lemma_bytes_nonempty(text: Seq<char>)
    requires
        text.len() > 0,
    ensures
        vstd::utf8::encode_utf8(text).len() > 0,
{
    assert(vstd::utf8::encode_scalar(text[0] as u32).len() > 0);
}

/// The generator never gets stuck: no draw leads to the state 0.
pub proof fn law_state_never_zero(s: u64)
    requires
        s != 0,
    ensures
        next_state(s) != 0,
{
    assert(s != 0 ==> ({
        let a = s ^ (s >> 12);
        let b = a ^ (a << 25);
        b ^ (b >> 27)
    }) != 0) by (bit_vector);
}

/// Different states are followed by different states, so no draw loses
/// information.
pub proof fn law_next_state_injective(s: u64, t: u64)
    requires
        next_state(s) == next_state(t),
    ensures
        s == t,
{
    assert(({
        let a = s ^ (s >> 12);
        let b = a ^ (a << 25);
        b ^ (b >> 27)
    }) == ({
        let c = t ^ (t >> 12);
        let d = c ^ (c << 25);
        d ^ (d >> 27)
    }) ==> s == t) by (bit_vector);
}

/// However often a seeded generator is asked, its state is never 0.
pub proof fn law_seeded_state_never_zero(seed: u64, n: nat)
    ensures
        state_after(seeded(seed), n) != 0,
    decreases n,
{
    if n > 0 {
        law_seeded_state_never_zero(seed, (n - 1) as nat);
        law_state_never_zero(state_after(seeded(seed), (n - 1) as nat));
    }
}

/// A number drawn from a range that is not empty lies in it.
pub proof fn law_range_draw_in_range(s: u64, lo: int, hi: int)
    requires
        lo < hi,
    ensures
        lo <= range_draw(s, lo, hi) < hi,
{
    vstd::arithmetic::div_mod::lemma_mod_bound(draw(s) as int, hi - lo);
}

/// Random text has the length asked for, and each character comes from the
/// bytes on offer.
pub proof fn law_random_chars(s: u64, charset: Seq<u8>, n: nat)
    requires
        charset.len() > 0,
    ensures
        random_chars(s, charset, n).len() == n,
        forall|i: int|
            0 <= i < n ==> exists|k: int|
                0 <= k < charset.len() && #[trigger] random_chars(s, charset, n)[i] == (
                #[trigger] charset[k]) as char,
    decreases n,
{
    if n > 0 {
        let k = (n - 1) as nat;
        law_random_chars(s, charset, k);
        let pick = index_draw(state_after(s, k), charset.len());
        vstd::arithmetic::div_mod::lemma_mod_bound(
            draw(state_after(s, k)) as int,
            charset.len() as int,
        );
        assert forall|i: int| 0 <= i < n implies exists|j: int|
            0 <= j < charset.len() && #[trigger] random_chars(s, charset, n)[i] == (
            #[trigger] charset[j]) as char by {
            if i < k {
                assert(random_chars(s, charset, n)[i] == random_chars(s, charset, k)[i]);
            } else {
                assert(random_chars(s, charset, n)[i] == charset[pick] as char);
            }
        }
    }
}

/// Moving a range moves what is drawn from it, and what is drawn differs from
/// the number behind it by a multiple of the length of the range.
pub proof fn law_range_draw_moves_with_the_range(s: u64, lo: int, hi: int, d: int)
    requires
        lo < hi,
    ensures
        range_draw(s, lo + d, hi + d) == range_draw(s, lo, hi) + d,
        (draw(s) - (range_draw(s, lo, hi) - lo)) % (hi - lo) == 0,
        hi - lo > u32::MAX ==> range_draw(s, lo, hi) == lo + draw(s),
{
    let n = hi - lo;
    let v = draw(s) as int;
    vstd::arithmetic::div_mod::lemma_fundamental_div_mod(v, n);
    vstd::arithmetic::div_mod::lemma_mod_multiples_basic(v / n, n);
    assert(v - v % n == (v / n) * n) by (nonlinear_arith)
        requires
            v == n * (v / n) + v % n,
    ;
    if n > u32::MAX {
        vstd::arithmetic::div_mod::lemma_small_mod(v as nat, n as nat);
    }
}

/// An empty range has nothing to draw from: its lower end comes out.
pub proof fn law_empty_range_gives_its_lower_end(s: u64, lo: int, hi: int)
    requires
        hi <= lo,
    ensures
        range_draw(s, lo, hi) == lo,
{
}

/// Random text grows at its end: asking for more characters keeps those that a
/// shorter request gives, and the next one depends on the draw behind them.
pub proof fn law_random_chars_go_on(s: u64, charset: Seq<u8>, n: nat)
    ensures
        random_chars(s, charset, n + 1) == random_chars(s, charset, n).push(
            charset[draw(state_after(s, n)) as int % charset.len() as int] as char,
        ),
        state_after(s, n + 1) == next_state(state_after(s, n)),
        random_chars(s, charset, 0) == Seq::<char>::empty(),
{
}

/// Every seed but 0 is a state of its own; 0 counts as 1.
pub proof fn law_seeds_are_states(seed: u64)
    ensures
        seed != 0 ==> seeded(seed) == seed,
        seeded(0) == seeded(1),
{
}

/// A draw out of `n` is the rest of the number drawn by `n`.
pub proof fn law_index_is_the_rest(s: u64, n: nat)
    requires
        n > 0,
    ensures
        0 <= index_draw(s, n) < n,
        (draw(s) - index_draw(s, n)) % n as int == 0,
{
    let v = draw(s) as int;
    let m = n as int;
    vstd::arithmetic::div_mod::lemma_mod_bound(v, m);
    vstd::arithmetic::div_mod::lemma_fundamental_div_mod(v, m);
    vstd::arithmetic::div_mod::lemma_mod_multiples_basic(v / m, m);
    assert(v - v % m == (v / m) * m) by (nonlinear_arith)
        requires
            v == m * (v / m) + v % m,
    ;
}

} // verus!
