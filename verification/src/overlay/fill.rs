//! What boxes are filled with.
use crate::config::{FillMode, FilterConfig};
use crate::order::is_permutation;
use crate::pixel::RgbaPixel;
use crate::rng::{draw, next_state, seeded, state_after, Rng};
use vstd::prelude::*;

verus! {

/// The seed of the random fills.
pub const FILL_SEED: u64 = 0x9E3779B97F4A7C15;

/// The noise at a pixel: its coordinates, hashed.
pub open spec fn noise(x: u32, y: u32) -> u32 {
    let a = x.wrapping_mul(73856093) ^ y.wrapping_mul(19349663) ^ 0x9E37_79B9u32;
    let b = (a ^ (a >> 13)).wrapping_mul(1274126177);
    b ^ (b >> 16)
}

/// The byte of `v` that starts at bit `shift`.
pub open spec fn byte_at(v: u32, shift: u32) -> u8 {
    ((v >> shift) & 0xFF) as u8
}

fn noise_at(x: u32, y: u32) -> (r: u32)
    ensures
        r == noise(x, y),
{
    let mut v = x.wrapping_mul(73856093) ^ y.wrapping_mul(19349663) ^ 0x9E37_79B9u32;
    v = (v ^ (v >> 13)).wrapping_mul(1274126177);
    v ^ (v >> 16)
}

/// What a pixel is painted with.
#[derive(Debug, Clone, Copy, PartialEq, Eq, Structural)]
pub enum Paint {
    /// The fill colour.
    Solid,
    /// The gradient.
    Gradient,
    /// The fill colour where the hatching runs.
    Hatch,
    /// The opposite of a colour.
    Inverse { r: u8, g: u8, b: u8 },
    /// A colour.
    Color { r: u8, g: u8, b: u8 },
    /// Nothing.
    Nothing,
}

/// White or black.
pub open spec fn two_tone(white: bool) -> Paint {
    if white {
        Paint::Color { r: 255, g: 255, b: 255 }
    } else {
        Paint::Color { r: 0, g: 0, b: 0 }
    }
}

/// What the pixel in column `x` of row `y` is painted with.
///
/// `pixel` is the pixel of the frame there, `level` the rank of its brightness
/// and `limit` that of the threshold. `source` is the pixel that a random fill
/// puts there.
pub open spec fn paint_of(
    cfg: FilterConfig,
    x: u32,
    y: u32,
    pixel: RgbaPixel,
    level: i32,
    limit: i32,
    source: Option<RgbaPixel>,
) -> Paint {
    match cfg.fill_mode {
        FillMode::Solid => Paint::Solid,
        FillMode::Gradient => Paint::Gradient,
        FillMode::Hatch => Paint::Hatch,
        FillMode::Invert => Paint::Inverse { r: pixel.r, g: pixel.g, b: pixel.b },
        FillMode::Random => match source {
            Some(p) => Paint::Color { r: p.r, g: p.g, b: p.b },
            None => Paint::Nothing,
        },
        FillMode::Binarize => two_tone((level >= limit) != cfg.fill_binarize_invert),
        FillMode::ColorNoise => Paint::Color {
            r: byte_at(noise(x, y), 0),
            g: byte_at(noise(x, y), 8),
            b: byte_at(noise(x, y), 16),
        },
        FillMode::Noise => Paint::Color {
            r: byte_at(noise(x, y), 0),
            g: byte_at(noise(x, y), 0),
            b: byte_at(noise(x, y), 0),
        },
    }
}

/// What a pixel is painted with.
pub fn paint(
    cfg: &FilterConfig,
    x: u32,
    y: u32,
    pixel: RgbaPixel,
    level: i32,
    limit: i32,
    source: Option<RgbaPixel>,
) -> (r: Paint)
    ensures
        r == paint_of(*cfg, x, y, pixel, level, limit, source),
{
    match cfg.fill_mode {
        FillMode::Solid => Paint::Solid,
        FillMode::Gradient => Paint::Gradient,
        FillMode::Hatch => Paint::Hatch,
        FillMode::Invert => Paint::Inverse { r: pixel.r, g: pixel.g, b: pixel.b },
        FillMode::Random => match source {
            Some(p) => Paint::Color { r: p.r, g: p.g, b: p.b },
            None => Paint::Nothing,
        },
        FillMode::Binarize => {
            let white = (level >= limit) != cfg.fill_binarize_invert;
            if white {
                Paint::Color { r: 255, g: 255, b: 255 }
            } else {
                Paint::Color { r: 0, g: 0, b: 0 }
            }
        },
        FillMode::ColorNoise => {
            let v = noise_at(x, y);
            Paint::Color {
                r: ((v >> 0) & 0xFF) as u8,
                g: ((v >> 8) & 0xFF) as u8,
                b: ((v >> 16) & 0xFF) as u8,
            }
        },
        FillMode::Noise => {
            let v = ((noise_at(x, y) >> 0) & 0xFF) as u8;
            Paint::Color { r: v, g: v, b: v }
        },
    }
}

/// The positions below `n` in their own order.
pub open spec fn in_order(n: nat) -> Seq<usize> {
    Seq::new(n, |i: int| i as usize)
}

/// `perm` with the entries at `i` and `j` exchanged.
pub open spec fn exchanged(perm: Seq<usize>, i: int, j: int) -> Seq<usize> {
    perm.update(i, perm[j]).update(j, perm[i])
}

/// The entries up to position `i` exchanged at random, the last with one of
/// those up to it, then the one before, and so on.
pub open spec fn shuffled(perm: Seq<usize>, i: int, s: u64) -> Seq<usize>
    decreases i,
{
    if i <= 0 {
        perm
    } else {
        shuffled(exchanged(perm, i, draw(s) as int % (i + 1)), i - 1, next_state(s))
    }
}

proof fn lemma_exchanged(perm: Seq<usize>, i: int, j: int)
    requires
        is_permutation(perm, perm.len() as int),
        0 <= i < perm.len(),
        0 <= j < perm.len(),
    ensures
        is_permutation(exchanged(perm, i, j), perm.len() as int),
{
    let swapped = exchanged(perm, i, j);
    assert forall|a: int, b: int|
        0 <= a < swapped.len() && 0 <= b < swapped.len() && a != b implies swapped[a]
        != swapped[b] by {
        let from = |k: int| if k == i {
            j
        } else if k == j {
            i
        } else {
            k
        };
        assert(swapped[a] == perm[from(a)] && swapped[b] == perm[from(b)]);
        assert(from(a) != from(b));
    }
}

proof fn lemma_shuffled(perm: Seq<usize>, i: int, s: u64)
    requires
        is_permutation(perm, perm.len() as int),
        i < perm.len(),
    ensures
        is_permutation(shuffled(perm, i, s), perm.len() as int),
    decreases i,
{
    if i > 0 {
        let j = draw(s) as int % (i + 1);
        lemma_exchanged(perm, i, j);
        lemma_shuffled(exchanged(perm, i, j), i - 1, next_state(s));
    }
}

/// A random fill shows every box once: the sources are the boxes in another
/// order.
pub proof fn law_shuffling_loses_no_box(n: usize, s: u64)
    ensures
        is_permutation(shuffled(in_order(n as nat), n - 1, s), n as int),
{
    lemma_shuffled(in_order(n as nat), n - 1, s);
}

proof fn lemma_state_shift(s: u64, n: nat)
    ensures
        state_after(next_state(s), n) == state_after(s, n + 1),
    decreases n,
{
    reveal_with_fuel(state_after, 2);
    if n > 0 {
        lemma_state_shift(s, (n - 1) as nat);
    }
}

/// A random order of `n` boxes.
pub fn shuffle(n: usize, rng: &mut Rng) -> (perm: Vec<usize>)
    ensures
        perm@ == shuffled(in_order(n as nat), n - 1, old(rng)@),
        final(rng)@ == state_after(
            old(rng)@,
            if n == 0 {
                0
            } else {
                (n - 1) as nat
            },
        ),
{
    let mut perm: Vec<usize> = Vec::with_capacity(n);
    let mut k: usize = 0;
    while k < n
        invariant
            k <= n,
            perm@ == in_order(k as nat),
        decreases n - k,
    {
        perm.push(k);
        assert(perm@ =~= in_order((k + 1) as nat));
        k = k + 1;
    }
    if n == 0 {
        return perm;
    }
    let ghost whole = shuffled(perm@, n - 1, rng@);
    let ghost last = state_after(rng@, (n - 1) as nat);
    assert(whole == shuffled(in_order(n as nat), n - 1, old(rng)@));
    let mut i: usize = n - 1;
    while i > 0
        invariant
            i < n,
            perm@.len() == n,
            whole == shuffled(perm@, i as int, rng@),
            last == state_after(rng@, i as nat),
        decreases i,
    {
        let ghost before = perm@;
        let ghost s = rng@;
        let j = (rng.next_u32() as u64 % (i as u64 + 1)) as usize;
        let at_i = perm[i];
        let at_j = perm[j];
        perm.set(i, at_j);
        perm.set(j, at_i);
        proof {
            assert(perm@ =~= exchanged(before, i as int, j as int));
            lemma_state_shift(s, (i - 1) as nat);
        }
        i = i - 1;
    }
    perm
}

/// Boxes are filled with the contents of other boxes.
pub open spec fn fills_at_random(cfg: FilterConfig) -> bool {
    cfg.fill_enabled && cfg.fill_mode == FillMode::Random
}

/// The box whose contents fill box `i` of `n`, if any does.
///
/// After the draws that shuffle the boxes, where only some boxes take part one
/// draw decides for each.
pub open spec fn source_of(n: int, cfg: FilterConfig, i: int) -> Option<usize> {
    let s = seeded(FILL_SEED);
    let chance = draw(state_after(s, (n - 1 + i) as nat)) % 100;
    if !fills_at_random(cfg) || cfg.fill_random_only && chance >= cfg.fill_random_probability {
        None
    } else {
        Some(shuffled(in_order(n as nat), n - 1, s)[i])
    }
}

/// For each of `n` boxes, the box whose contents fill it.
pub fn fill_sources(n: usize, cfg: &FilterConfig) -> (sources: Vec<Option<usize>>)
    ensures
        sources@ == Seq::new(n as nat, |i: int| source_of(n as int, *cfg, i)),
        forall|i: int|
            0 <= i < sources@.len() ==> match #[trigger] sources@[i] {
                Some(k) => k < n,
                None => true,
            },
{
    let random = cfg.fill_enabled && cfg.fill_mode == FillMode::Random;
    let mut sources: Vec<Option<usize>> = Vec::with_capacity(n);
    let mut i: usize = 0;
    if !random || n == 0 {
        while i < n
            invariant
                i <= n,
                !fills_at_random(*cfg) || n == 0,
                sources@.len() == i,
                forall|k: int| 0 <= k < i ==> #[trigger] sources@[k] == source_of(n as int, *cfg, k),
                forall|k: int| 0 <= k < i ==> #[trigger] sources@[k] == None::<usize>,
            decreases n - i,
        {
            sources.push(None);
            i = i + 1;
        }
        assert(sources@ =~= Seq::new(n as nat, |i: int| source_of(n as int, *cfg, i)));
        return sources;
    }
    let mut rng = Rng::new(FILL_SEED);
    let perm = shuffle(n, &mut rng);
    proof {
        law_shuffling_loses_no_box(n, seeded(FILL_SEED));
    }
    while i < n
        invariant
            0 < n,
            i <= n,
            fills_at_random(*cfg),
            perm@ == shuffled(in_order(n as nat), n - 1, seeded(FILL_SEED)),
            is_permutation(perm@, n as int),
            cfg.fill_random_only ==> rng@ == state_after(
                seeded(FILL_SEED),
                (n - 1 + i) as nat,
            ),
            sources@.len() == i,
            forall|k: int| 0 <= k < i ==> #[trigger] sources@[k] == source_of(n as int, *cfg, k),
            forall|k: int|
                0 <= k < i ==> match #[trigger] sources@[k] {
                    Some(j) => j < n,
                    None => true,
                },
        decreases n - i,
    {
        let takes_part = if cfg.fill_random_only {
            rng.next_u32() % 100 < cfg.fill_random_probability
        } else {
            true
        };
        if takes_part {
            sources.push(Some(perm[i]));
        } else {
            sources.push(None);
        }
        i = i + 1;
    }
    assert(sources@ =~= Seq::new(n as nat, |i: int| source_of(n as int, *cfg, i)));
    sources
}

/// Where only some boxes take part in a random fill, none does at no chance and
/// every one does at full chance.
pub proof fn law_chance_decides_who_takes_part(n: int, cfg: FilterConfig, i: int)
    requires
        fills_at_random(cfg),
    ensures
        cfg.fill_random_only && cfg.fill_random_probability == 0 ==> source_of(n, cfg, i) is None,
        !cfg.fill_random_only || cfg.fill_random_probability >= 100 ==> source_of(
            n,
            cfg,
            i,
        ) is Some,
{
}

/// Grey noise has no colour.
pub proof fn law_noise_is_grey(
    cfg: FilterConfig,
    x: u32,
    y: u32,
    pixel: RgbaPixel,
    level: i32,
    limit: i32,
    source: Option<RgbaPixel>,
)
    requires
        cfg.fill_mode == FillMode::Noise,
    ensures
        paint_of(cfg, x, y, pixel, level, limit, source) matches Paint::Color { r, g, b } && r == g
            && g == b,
{
}

/// Pixels have the same noise if and only if their coordinates have the same
/// hash, in which columns and rows count differently.
pub proof fn law_noise_tells_pixels_apart(x: u32, y: u32, u: u32, v: u32)
    ensures
        noise(x, y) == noise(u, v) <==> x.wrapping_mul(73856093) ^ y.wrapping_mul(19349663)
            == u.wrapping_mul(73856093) ^ v.wrapping_mul(19349663),
{
    let (p, q) = (
        x.wrapping_mul(73856093) ^ y.wrapping_mul(19349663),
        u.wrapping_mul(73856093) ^ v.wrapping_mul(19349663),
    );
    let (a, b) = (p ^ 0x9E37_79B9u32, q ^ 0x9E37_79B9u32);
    let (c, d) = (a ^ (a >> 13), b ^ (b >> 13));
    let (e, f) = (c.wrapping_mul(1274126177), d.wrapping_mul(1274126177));
    if noise(x, y) == noise(u, v) {
        assert(e ^ (e >> 16) == f ^ (f >> 16) ==> e == f) by (bit_vector);
        lemma_hash_step(c);
        lemma_hash_step(d);
        assert(a ^ (a >> 13) == b ^ (b >> 13) ==> a == b) by (bit_vector);
        assert(p ^ 0x9E37_79B9u32 == q ^ 0x9E37_79B9u32 ==> p == q) by (bit_vector);
    }
}

/// The step of the hash that multiplies can be undone.
proof fn lemma_hash_step(c: u32)
    ensures
        c.wrapping_mul(1274126177).wrapping_mul(1406485665) == c,
{
    let (n, m) = (c as int, 0x1_0000_0000int);
    vstd::arithmetic::div_mod::lemma_mul_mod_noop_left(n * 1274126177, 1406485665, m);
    assert((n * 1274126177) * 1406485665 == m * (n * 417241874) + n);
    vstd::arithmetic::div_mod::lemma_mod_multiples_vanish(n * 417241874, n, m);
}

/// What each kind of fill paints a pixel with.
///
/// Inverting and random fills take the colour of their own pixel or of the
/// source's. Binarizing paints white what reaches the threshold and black what
/// does not, or the other way round if it is inverted.
pub proof fn law_fill_paints_its_kind(
    cfg: FilterConfig,
    x: u32,
    y: u32,
    pixel: RgbaPixel,
    level: i32,
    limit: i32,
    source: Option<RgbaPixel>,
)
    ensures
        ({
            let paint = paint_of(cfg, x, y, pixel, level, limit, source);
            match cfg.fill_mode {
                FillMode::Solid => paint is Solid,
                FillMode::Gradient => paint is Gradient,
                FillMode::Hatch => paint is Hatch,
                FillMode::Invert => paint matches Paint::Inverse { r, g, b } && r == pixel.r && g
                    == pixel.g && b == pixel.b,
                FillMode::Random => match source {
                    Some(p) => paint matches Paint::Color { r, g, b } && r == p.r && g == p.g && b
                        == p.b,
                    None => paint is Nothing,
                },
                FillMode::Binarize => paint matches Paint::Color { r, g, b } && r == g && g == b && (r
                    == 0 || r == 255) && (r == 255 <==> if cfg.fill_binarize_invert {
                    level < limit
                } else {
                    level >= limit
                }),
                FillMode::ColorNoise => paint matches Paint::Color { r, g, b } && r + 0x100 * g
                    + 0x1_0000 * b == noise(x, y) as int % 0x100_0000,
                FillMode::Noise => paint matches Paint::Color { r, g, b } && r == g && g == b && r
                    == noise(x, y) as int % 0x100,
            }
        }),
{
    lemma_bytes_of(noise(x, y));
}

proof fn lemma_bytes_of(v: u32)
    ensures
        byte_at(v, 0) == v as int % 0x100,
        byte_at(v, 0) + 0x100 * byte_at(v, 8) + 0x1_0000 * byte_at(v, 16) == v as int % 0x100_0000,
{
    assert(((v >> 0u32) & 0xFF) as u8 == v % 0x100) by (bit_vector);
    assert(((v >> 0u32) & 0xFF) as u8 + 0x100 * (((v >> 8u32) & 0xFF) as u8) + 0x1_0000 * (((v
        >> 16u32) & 0xFF) as u8) == v % 0x100_0000) by (bit_vector);
}

/// Shuffling leaves the entries behind position `i` where they are, and puts
/// there the one that the first draw picks out of all up to it.
pub proof fn law_shuffling_draws_for_the_last_first(perm: Seq<usize>, i: int, s: u64, k: int)
    requires
        0 < i < perm.len(),
    ensures
        shuffled(perm, i, s).len() == perm.len(),
        shuffled(perm, i, s)[i] == perm[draw(s) as int % (i + 1)],
        i < k < perm.len() ==> shuffled(perm, i, s)[k] == perm[k],
{
    let j = draw(s) as int % (i + 1);
    let next = exchanged(perm, i, j);
    lemma_shuffled_behind(next, i - 1, next_state(s), i);
    if i < k < perm.len() {
        lemma_shuffled_behind(next, i - 1, next_state(s), k);
    }
}

proof fn lemma_shuffled_behind(perm: Seq<usize>, i: int, s: u64, k: int)
    requires
        i < k < perm.len(),
        0 <= k,
    ensures
        shuffled(perm, i, s).len() == perm.len(),
        shuffled(perm, i, s)[k] == perm[k],
    decreases i,
{
    if i > 0 {
        let j = draw(s) as int % (i + 1);
        lemma_shuffled_behind(exchanged(perm, i, j), i - 1, next_state(s), k);
    }
}

/// Which box fills box `i`: none unless boxes are filled at random; where only
/// some take part, a draw in percent below the chance decides. Whoever takes
/// part gets the same source whatever the chance is, and a greater chance leaves
/// no one out.
pub proof fn law_greater_chance_leaves_no_one_out(
    n: int,
    cfg: FilterConfig,
    other: FilterConfig,
    i: int,
)
    requires
        cfg.fill_enabled == other.fill_enabled,
        cfg.fill_mode == other.fill_mode,
        !other.fill_random_only || cfg.fill_random_only && cfg.fill_random_probability
            <= other.fill_random_probability,
    ensures
        source_of(n, cfg, i) is Some ==> source_of(n, other, i) == source_of(n, cfg, i),
        source_of(n, cfg, i) is Some ==> cfg.fill_enabled && cfg.fill_mode == FillMode::Random,
        cfg.fill_enabled && cfg.fill_mode == FillMode::Random && cfg.fill_random_only ==> (source_of(
            n,
            cfg,
            i,
        ) is Some <==> draw(state_after(seeded(FILL_SEED), (n - 1 + i) as nat)) as int % 100
            < cfg.fill_random_probability),
{
}

/// Where every box takes part in a random fill, the sources are all the boxes,
/// each once; the last box is filled from the one that the first draw picks out
/// of all of them.
pub proof fn law_random_fill_uses_every_box_once(n: usize, cfg: FilterConfig, i: int, j: int)
    requires
        cfg.fill_enabled,
        cfg.fill_mode == FillMode::Random,
        !cfg.fill_random_only,
        0 <= i < n,
        0 <= j < n,
    ensures
        source_of(n as int, cfg, i) is Some,
        source_of(n as int, cfg, i)->0 < n,
        i != j ==> source_of(n as int, cfg, i) != source_of(n as int, cfg, j),
        n > 1 ==> source_of(n as int, cfg, n - 1) == Some(
            (draw(seeded(FILL_SEED)) as int % n as int) as usize,
        ),
{
    let s = seeded(FILL_SEED);
    law_shuffling_loses_no_box(n, s);
    let perm = shuffled(in_order(n as nat), n - 1, s);
    assert(perm[i] < n);
    if i != j {
        assert(perm[i] != perm[j]);
    }
    if n > 1 {
        law_shuffling_draws_for_the_last_first(in_order(n as nat), n - 1, s, n as int);
        vstd::arithmetic::div_mod::lemma_mod_bound(draw(s) as int, n as int);
    }
}

} // verus!
